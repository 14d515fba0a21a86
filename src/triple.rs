use vstd::prelude::*;
use vstd::std_specs::iter::IteratorSpec;

verus! {

/// The predicate that marks a type triple.
pub const TYPE_STRING: &'static str = "<http://www.w3.org/1999/02/22-rdf-syntax-ns#type>";

/// One triple, its terms already encoded as identifiers.
pub struct Triple {
    pub sub: u32,
    pub pred: u32,
    pub obj: u32,
    pub is_type: bool,
}

/// The fields of `s` between single spaces; two spaces in a row enclose an
/// empty field, and a text without spaces is one field.
pub open spec fn split_spaces(s: Seq<char>) -> Seq<Seq<char>>
    decreases s.len(),
{
    if s.len() == 0 {
        seq![Seq::empty()]
    } else {
        let r = split_spaces(s.drop_last());
        if s.last() == ' ' {
            r.push(Seq::empty())
        } else {
            r.update(r.len() - 1, r.last().push(s.last()))
        }
    }
}

pub proof fn lemma_split_nonempty(s: Seq<char>)
    ensures
        split_spaces(s).len() >= 1,
    decreases s.len(),
{
    if s.len() > 0 {
        lemma_split_nonempty(s.drop_last());
    }
}

/// Relies on String::push: appends `c` at the end.
#[verifier::external_body]
fn push_char(s: &mut String, c: char)
    ensures
        final(s)@ == old(s)@.push(c),
{
    s.push(c)
}

/// Splits a line of the triple file at each space.
pub fn split_fields(line: &str) -> (r: Vec<String>)
    ensures
        r@.len() == split_spaces(line@).len(),
        forall|k: int| 0 <= k < r@.len() ==> #[trigger] r@[k]@ == split_spaces(line@)[k],
{
    let mut fields: Vec<String> = Vec::new();
    let mut cur = String::new();
    let mut it = line.chars();
    let ghost mut k: int = 0;
    loop
        invariant
            0 <= k <= line@.len(),
            it.remaining() == line@.subrange(k, line@.len() as int),
            it.obeys_prophetic_iter_laws(),
            fields@.len() + 1 == split_spaces(line@.subrange(0, k)).len(),
            forall|j: int| 0 <= j < fields@.len() ==> #[trigger] fields@[j]@ == split_spaces(line@.subrange(0, k))[j],
            cur@ == split_spaces(line@.subrange(0, k)).last(),
        ensures
            k == line@.len(),
            fields@.len() + 1 == split_spaces(line@.subrange(0, k)).len(),
            forall|j: int| 0 <= j < fields@.len() ==> #[trigger] fields@[j]@ == split_spaces(line@.subrange(0, k))[j],
            cur@ == split_spaces(line@.subrange(0, k)).last(),
        decreases line@.len() - k,
    {
        let ghost pre = line@.subrange(0, k);
        proof {
            lemma_split_nonempty(pre);
        }
        match it.next() {
            Some(c) => {
                proof {
                    assert(line@.subrange(0, k + 1).drop_last() =~= pre);
                    assert(line@.subrange(0, k + 1).last() == c);
                    k = k + 1;
                    assert(it.remaining() =~= line@.subrange(k, line@.len() as int));
                }
                if c == ' ' {
                    let mut done = String::new();
                    std::mem::swap(&mut cur, &mut done);
                    fields.push(done);
                } else {
                    push_char(&mut cur, c);
                }
            },
            None => {
                assert(k == line@.len());
                break;
            },
        }
    }
    assert(line@.subrange(0, k) =~= line@);
    fields.push(cur);
    fields
}

/// Whether `term` is the type predicate.
pub fn is_type_pred(term: &String) -> (r: bool)
    ensures
        r == (term@ == TYPE_STRING@),
{
    term.eq(&TYPE_STRING.to_owned())
}

/// The three terms of a triple line, if it has at least three fields.
pub fn triple_terms(line: &str) -> (r: Option<(String, String, String)>)
    ensures
        split_spaces(line@).len() >= 3 <==> r is Some,
        r is Some ==> r->Some_0.0@ == split_spaces(line@)[0] && r->Some_0.1@ == split_spaces(line@)[1]
            && r->Some_0.2@ == split_spaces(line@)[2],
{
    let mut f = split_fields(line);
    if f.len() < 3 {
        return None;
    }
    f.truncate(3);
    let obj = f.pop();
    let pred = f.pop();
    let sub = f.pop();
    match (sub, pred, obj) {
        (Some(s), Some(p), Some(o)) => Some((s, p, o)),
        _ => None,
    }
}

} // verus!
