use vstd::prelude::*;
use crate::pattern::Pattern;
use crate::text::{chars_of_string, string_of};

verus! {

/// State of one rule set: ignored glyphs, text of the start word, number of
/// iterations, constants, imported rule files by alias, productions (most specific
/// first), and object files by name.
pub struct IterCtx {
    pub ignored: String,
    pub start_word: String,
    pub n_iter: usize,
    pub define: Vec<(String, i64)>,
    pub imports: Vec<(String, String)>,
    pub patterns: Vec<Pattern>,
    pub objects: Vec<(String, String)>,
    /// Lines of the rule file that were skipped, each with the reason.
    pub skipped: Vec<String>,
}

/// What context matching needs of a rule set: its ignored glyphs and its constants.
pub struct LightCtx {
    pub ignored: String,
    pub define: Vec<(String, i64)>,
}

pub fn copy_pairs<T: Copy>(v: &Vec<(String, T)>) -> (r: Vec<(String, T)>)
    ensures
        r@ == v@,
{
    let mut r: Vec<(String, T)> = Vec::new();
    let mut i: usize = 0;
    while i < v.len()
        invariant
            i <= v@.len(),
            r@ == v@.take(i as int),
        decreases v.len() - i,
    {
        r.push((v[i].0.clone(), v[i].1));
        i += 1;
        assert(r@ =~= v@.take(i as int));
    }
    assert(v@.take(i as int) =~= v@);
    r
}

/// One entry of an object header: the rule set's name and the object's
/// name run together, a space, the folder, a slash and the file, a space.
pub open spec fn header_entry(rule_set: Seq<char>, obj: Seq<char>, folder: Seq<char>, file: Seq<char>) -> Seq<char> {
    rule_set + obj + seq![' '] + folder + seq!['/'] + file + seq![' ']
}

pub open spec fn header_text(objs: Seq<(String, String)>, rule_set: Seq<char>, folder: Seq<char>) -> Seq<char>
    decreases objs.len(),
{
    if objs.len() == 0 {
        Seq::empty()
    } else {
        header_text(objs.drop_last(), rule_set, folder)
            + header_entry(rule_set, objs.last().0@, folder, objs.last().1@)
    }
}

fn push_chars(out: &mut Vec<char>, s: &String)
    ensures
        final(out)@ == old(out)@ + s@,
{
    let mut cs = chars_of_string(s);
    out.append(&mut cs);
}

impl IterCtx {
    pub fn to_light_ctx(&self) -> (r: LightCtx)
        ensures
            r.ignored == self.ignored,
            r.define@ == self.define@,
    {
        LightCtx { ignored: self.ignored.clone(), define: copy_pairs(&self.define) }
    }

    /// A rule file can be run once it names a start word and a number of
    /// iterations; otherwise the run stops before any rewriting.
    pub fn check_complete(&self) -> (r: Result<(), &'static str>)
        ensures
            r is Ok <==> (self.start_word@.len() > 0 && self.n_iter > 0),
    {
        let w = chars_of_string(&self.start_word);
        if w.len() == 0 {
            Err("The rule file names no start word.")
        } else if self.n_iter == 0 {
            Err("The rule file names no number of iterations.")
        } else {
            Ok(())
        }
    }

    /// The objects of the rule set as header text, in order.
    pub fn get_object_header(&self, rule_set: &String, folder: &String) -> (r: String)
        ensures
            r@ == header_text(self.objects@, rule_set@, folder@),
    {
        let mut out: Vec<char> = Vec::new();
        let mut i: usize = 0;
        while i < self.objects.len()
            invariant
                i <= self.objects@.len(),
                out@ == header_text(self.objects@.take(i as int), rule_set@, folder@),
            decreases self.objects.len() - i,
        {
            let ghost before = out@;
            push_chars(&mut out, rule_set);
            push_chars(&mut out, &self.objects[i].0);
            out.push(' ');
            push_chars(&mut out, folder);
            out.push('/');
            push_chars(&mut out, &self.objects[i].1);
            out.push(' ');
            proof {
                assert(self.objects@.take(i + 1).drop_last() =~= self.objects@.take(i as int));
                assert(out@ =~= before + header_entry(rule_set@, self.objects@[i as int].0@, folder@, self.objects@[i as int].1@));
            }
            i += 1;
        }
        assert(self.objects@.take(i as int) =~= self.objects@);
        string_of(&out)
    }
}

} // verus!
