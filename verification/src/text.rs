//! Debug texts of names and of sets of names, as std's `{:?}` writes them.

use vstd::prelude::*;
use vstd::string::StringExecFns;
use crate::names::names;

verus! {

/// The Debug text of a name: the name in double quotes, with escapes.
pub uninterp spec fn debug_text(s: Seq<char>) -> Seq<char>;

/// The Debug text of a name.
///
/// Trusted: it calls `format!` with `{:?}` on the string; the text that
/// comes back is named `debug_text` of the string's characters, which std
/// computes from them alone.
#[verifier::external_body]
fn debug_name(name: &String) -> (r: String)
    ensures
        r@ == debug_text(name@),
{
    format!("{:?}", name)
}

/// The texts of `t`, separated by ", ".
pub open spec fn joined(t: Seq<Seq<char>>) -> Seq<char>
    decreases t.len(),
{
    if t.len() == 0 {
        Seq::empty()
    } else if t.len() == 1 {
        t[0]
    } else {
        joined(t.drop_last()) + ", "@ + t.last()
    }
}

/// The texts of `t`, separated by ", " and enclosed in braces.
pub open spec fn braced(t: Seq<Seq<char>>) -> Seq<char> {
    "{"@ + joined(t) + "}"@
}

/// The Debug texts of the names `q`, in order.
pub open spec fn debug_texts(q: Seq<Seq<char>>) -> Seq<Seq<char>> {
    q.map_values(|x: Seq<char>| debug_text(x))
}

/// The Debug text of an ordered set of names listed as `q`.
pub open spec fn set_debug(q: Seq<Seq<char>>) -> Seq<char> {
    braced(debug_texts(q))
}

/// The texts, separated by ", " and enclosed in braces.
pub fn brace_texts(texts: &[String]) -> (r: String)
    ensures
        r@ == braced(names(texts@)),
{
    let ghost q = names(texts@);
    let mut r: String = "{".to_owned();
    let mut i: usize = 0;
    assert(q.subrange(0, 0) =~= Seq::<Seq<char>>::empty());
    while i < texts.len()
        invariant
            q == names(texts@),
            i <= texts.len(),
            r@ == "{"@ + joined(q.subrange(0, i as int)),
        decreases texts.len() - i,
    {
        if i > 0 {
            r.append(", ");
        }
        r.append(texts[i].as_str());
        proof {
            let pre = q.subrange(0, i + 1);
            assert(pre.drop_last() =~= q.subrange(0, i as int));
            assert(pre.last() == texts@[i as int]@);
            if i == 0 {
                assert(pre =~= seq![texts@[0]@]);
            }
        }
        i = i + 1;
    }
    r.append("}");
    assert(q.subrange(0, texts.len() as int) =~= q);
    r
}

/// The Debug text of the set whose elements are `s`, in order.
pub fn set_text(s: &[String]) -> (r: String)
    ensures
        r@ == set_debug(names(s@)),
{
    let ghost q = names(s@);
    let mut texts: Vec<String> = Vec::new();
    let mut i: usize = 0;
    while i < s.len()
        invariant
            q == names(s@),
            i <= s.len(),
            names(texts@) == debug_texts(q.subrange(0, i as int)),
        decreases s.len() - i,
    {
        let d = debug_name(&s[i]);
        let ghost before = texts@;
        texts.push(d);
        proof {
            assert(names(texts@) =~= names(before).push(debug_text(s@[i as int]@)));
            assert(debug_texts(q.subrange(0, i + 1)) =~= debug_texts(q.subrange(0, i as int)).push(
                debug_text(q[i as int]),
            ));
        }
        i = i + 1;
    }
    assert(q.subrange(0, s.len() as int) =~= q);
    brace_texts(texts.as_slice())
}

} // verus!
