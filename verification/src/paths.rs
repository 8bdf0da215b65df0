use vstd::prelude::*;
use crate::chars::{str_to_chars, chars_to_string};

verus! {

/// The final path component: the characters after the last `'/'`, the whole
/// path when it has none, and nothing when it ends with `'/'`.
pub open spec fn base_name(p: Seq<char>) -> Seq<char>
    decreases p.len(),
{
    if p.len() == 0 {
        Seq::empty()
    } else if p.last() == '/' {
        Seq::empty()
    } else {
        base_name(p.drop_last()).push(p.last())
    }
}

proof fn lemma_base_name_suffix(p: Seq<char>, cut: int)
    requires
        0 <= cut <= p.len(),
        cut > 0 ==> p[cut - 1] == '/',
        forall|k: int| cut <= k < p.len() ==> p[k] != '/',
    ensures
        base_name(p) == p.subrange(cut, p.len() as int),
    decreases p.len(),
{
    if p.len() == 0 {
        assert(p.subrange(0, 0) =~= Seq::<char>::empty());
    } else if cut == p.len() {
        assert(p.subrange(cut, p.len() as int) =~= Seq::<char>::empty());
    } else {
        assert(p.last() != '/');
        let q = p.drop_last();
        lemma_base_name_suffix(q, cut);
        assert(q.subrange(cut, q.len() as int) =~= p.subrange(cut, p.len() - 1));
        assert(p.subrange(cut, p.len() as int) =~= p.subrange(cut, p.len() - 1).push(p.last()));
    }
}

/// The final path component of `p`.
pub fn base_name_of(p: &str) -> (r: String)
    ensures
        r@ == base_name(p@),
{
    let chars = str_to_chars(p);
    let n = chars.len();
    let mut cut: usize = n;
    while cut > 0 && chars[cut - 1] != '/'
        invariant
            0 <= cut <= n,
            n == p@.len(),
            chars@ == p@,
            forall|k: int| cut <= k < n ==> p@[k] != '/',
        decreases cut,
    {
        cut = cut - 1;
    }
    let mut out: Vec<char> = Vec::new();
    let mut i: usize = cut;
    while i < n
        invariant
            cut <= i <= n,
            n == p@.len(),
            chars@ == p@,
            out@ == p@.subrange(cut as int, i as int),
        decreases n - i,
    {
        out.push(chars[i]);
        i = i + 1;
        assert(out@ =~= p@.subrange(cut as int, i as int));
    }
    proof {
        lemma_base_name_suffix(p@, cut as int);
    }
    chars_to_string(&out)
}

/// `dir` and `name` joined with exactly one separating `'/'` (none added
/// when `dir` already ends with one).
pub open spec fn spec_join_path(dir: Seq<char>, name: Seq<char>) -> Seq<char> {
    if dir.len() > 0 && dir.last() == '/' {
        dir + name
    } else {
        dir + seq!['/'] + name
    }
}

pub fn join_path(dir: &str, name: &str) -> (r: String)
    ensures
        r@ == spec_join_path(dir@, name@),
{
    let mut out = str_to_chars(dir);
    if out.len() == 0 || out[out.len() - 1] != '/' {
        out.push('/');
        assert(out@ =~= dir@ + seq!['/']);
    }
    let mut name_chars = str_to_chars(name);
    out.append(&mut name_chars);
    proof {
        if dir@.len() > 0 && dir@.last() == '/' {
            assert(out@ =~= spec_join_path(dir@, name@));
        } else {
            assert(out@ =~= (dir@ + seq!['/']) + name@);
            assert((dir@ + seq!['/']) + name@ =~= dir@ + seq!['/'] + name@);
        }
    }
    chars_to_string(&out)
}

/// Character-for-character string comparison.
pub fn str_eq(a: &str, b: &str) -> (r: bool)
    ensures
        r == (a@ == b@),
{
    let n = a.unicode_len();
    if n != b.unicode_len() {
        return false;
    }
    let mut i: usize = 0;
    while i < n
        invariant
            0 <= i <= n,
            n == a@.len(),
            n == b@.len(),
            forall|j: int| 0 <= j < i ==> a@[j] == b@[j],
        decreases n - i,
    {
        if a.get_char(i) != b.get_char(i) {
            return false;
        }
        i = i + 1;
    }
    assert(a@ =~= b@);
    true
}

}
