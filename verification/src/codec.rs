use vstd::prelude::*;
use crate::chars::str_to_chars;
use crate::numbers::{
    spec_hex, all_hex_digits, hex_seq_val, pow16, push_hex, read_hex16, lemma_hex_roundtrip,
    lemma_hex_seq_val_bounds, lemma_pow16_16,
};
use crate::record::{CachedFile, RecordV};

verus! {

// ---------------------------------------------------------------------------
// The index artifact, as characters
//
// Every number is written as exactly 16 hexadecimal digits.  A string is its
// character count followed by its characters.  A record is url, path,
// creation time, the signed random offset (sign character, then magnitude),
// and the optional explicit expiry ('n' when absent, 's' and a number when
// present).  The artifact is the record count followed by the records.
// ---------------------------------------------------------------------------

pub open spec fn enc_u64(n: nat) -> Seq<char> {
    spec_hex(n, 16)
}

pub open spec fn enc_str(s: Seq<char>) -> Seq<char> {
    enc_u64(s.len()) + s
}

pub open spec fn enc_i32(v: i32) -> Seq<char> {
    if v < 0 {
        seq!['-'] + enc_u64((-(v as int)) as nat)
    } else {
        seq!['+'] + enc_u64(v as nat)
    }
}

pub open spec fn enc_opt(o: Option<u64>) -> Seq<char> {
    match o {
        None => seq!['n'],
        Some(e) => seq!['s'] + enc_u64(e as nat),
    }
}

pub open spec fn enc_rec(r: RecordV) -> Seq<char> {
    enc_str(r.url) + enc_str(r.path) + enc_u64(r.cached_time as nat) + enc_i32(r.random) + enc_opt(
        r.expire_time,
    )
}

pub open spec fn enc_recs(rs: Seq<RecordV>) -> Seq<char>
    decreases rs.len(),
{
    if rs.len() == 0 {
        Seq::empty()
    } else {
        enc_rec(rs[0]) + enc_recs(rs.skip(1))
    }
}

pub open spec fn enc_index(rs: Seq<RecordV>) -> Seq<char> {
    enc_u64(rs.len()) + enc_recs(rs)
}

/// No two records of the sequence share a URL.
pub open spec fn urls_distinct(rs: Seq<RecordV>) -> bool {
    forall|i: int, j: int| 0 <= i < j < rs.len() ==> (#[trigger] rs[i]).url != (#[trigger] rs[j]).url
}

/// A record a `u64`-length machine can hold: its strings are addressable.
pub open spec fn rec_bounded(r: RecordV) -> bool {
    r.url.len() < pow16(16) && r.path.len() < pow16(16)
}

pub open spec fn recs_bounded(rs: Seq<RecordV>) -> bool {
    rs.len() < pow16(16) && forall|i: int| 0 <= i < rs.len() ==> rec_bounded(#[trigger] rs[i])
}

// ---------------------------------------------------------------------------
// Reading the artifact back, one field at a time; each reader returns what
// it read and the unread remainder.
// ---------------------------------------------------------------------------

pub open spec fn take_u64(s: Seq<char>) -> Option<(u64, Seq<char>)> {
    if s.len() >= 16 && all_hex_digits(s.take(16)) {
        Some((hex_seq_val(s.take(16)) as u64, s.skip(16)))
    } else {
        None
    }
}

pub open spec fn take_str(s: Seq<char>) -> Option<(Seq<char>, Seq<char>)> {
    match take_u64(s) {
        None => None,
        Some((n, rest)) => if rest.len() >= n {
            Some((rest.take(n as int), rest.skip(n as int)))
        } else {
            None
        },
    }
}

pub open spec fn take_i32(s: Seq<char>) -> Option<(i32, Seq<char>)> {
    if s.len() >= 1 && s[0] == '-' {
        match take_u64(s.skip(1)) {
            None => None,
            Some((m, rest)) => if 0 < m <= 0x8000_0000u64 {
                Some(((-(m as int)) as i32, rest))
            } else {
                None
            },
        }
    } else if s.len() >= 1 && s[0] == '+' {
        match take_u64(s.skip(1)) {
            None => None,
            Some((m, rest)) => if m <= 0x7fff_ffffu64 {
                Some((m as i32, rest))
            } else {
                None
            },
        }
    } else {
        None
    }
}

pub open spec fn take_opt(s: Seq<char>) -> Option<(Option<u64>, Seq<char>)> {
    if s.len() >= 1 && s[0] == 'n' {
        Some((None, s.skip(1)))
    } else if s.len() >= 1 && s[0] == 's' {
        match take_u64(s.skip(1)) {
            None => None,
            Some((e, rest)) => Some((Some(e), rest)),
        }
    } else {
        None
    }
}

pub open spec fn take_rec(s: Seq<char>) -> Option<(RecordV, Seq<char>)> {
    match take_str(s) {
        None => None,
        Some((url, s1)) => match take_str(s1) {
            None => None,
            Some((path, s2)) => match take_u64(s2) {
                None => None,
                Some((cached_time, s3)) => match take_i32(s3) {
                    None => None,
                    Some((random, s4)) => match take_opt(s4) {
                        None => None,
                        Some((expire_time, s5)) => Some(
                            (RecordV { url, path, cached_time, random, expire_time }, s5),
                        ),
                    },
                },
            },
        },
    }
}

pub open spec fn take_recs(s: Seq<char>, n: nat) -> Option<(Seq<RecordV>, Seq<char>)>
    decreases n,
{
    if n == 0 {
        Some((Seq::empty(), s))
    } else {
        match take_rec(s) {
            None => None,
            Some((r, rest)) => match take_recs(rest, (n - 1) as nat) {
                None => None,
                Some((rs, rest2)) => Some((seq![r] + rs, rest2)),
            },
        }
    }
}

/// What a well-formed artifact denotes: its records, with nothing left over
/// and no URL twice.  Anything else denotes nothing.
pub open spec fn spec_decode(s: Seq<char>) -> Option<Seq<RecordV>> {
    match take_u64(s) {
        None => None,
        Some((n, rest)) => match take_recs(rest, n as nat) {
            None => None,
            Some((rs, rest2)) => if rest2.len() == 0 && urls_distinct(rs) {
                Some(rs)
            } else {
                None
            },
        },
    }
}

// ---------------------------------------------------------------------------
// Encoding, executable
// ---------------------------------------------------------------------------

fn push_str_field(out: &mut Vec<char>, s: &String)
    ensures
        final(out)@ == old(out)@ + enc_str(s@),
{
    let n = s.as_str().unicode_len();
    push_hex(out, n as u64, 16);
    let mut i: usize = 0;
    while i < n
        invariant
            0 <= i <= n,
            n == s@.len(),
            out@ == old(out)@ + enc_u64(s@.len()) + s@.take(i as int),
        decreases n - i,
    {
        out.push(s.as_str().get_char(i));
        i = i + 1;
        assert(out@ =~= old(out)@ + enc_u64(s@.len()) + s@.take(i as int));
    }
    assert(out@ =~= old(out)@ + enc_str(s@)) by {
        assert(s@.take(n as int) =~= s@);
    }
}

fn push_record(out: &mut Vec<char>, r: &CachedFile)
    ensures
        final(out)@ == old(out)@ + enc_rec(r@),
{
    push_str_field(out, &r.url);
    push_str_field(out, &r.path);
    push_hex(out, r.cached_time, 16);
    let ghost head = old(out)@ + enc_str(r@.url) + enc_str(r@.path) + enc_u64(
        r@.cached_time as nat,
    );
    assert(out@ == head);
    if r.random < 0 {
        out.push('-');
        let mag_signed: i64 = -(r.random as i64);
        let mag: u64 = mag_signed as u64;
        push_hex(out, mag, 16);
        assert(out@ =~= head + enc_i32(r@.random));
    } else {
        out.push('+');
        push_hex(out, r.random as u64, 16);
        assert(out@ =~= head + enc_i32(r@.random));
    }
    match r.expire_time {
        None => {
            out.push('n');
            assert(out@ =~= old(out)@ + enc_rec(r@));
        },
        Some(e) => {
            out.push('s');
            push_hex(out, e, 16);
            assert(out@ =~= old(out)@ + enc_rec(r@));
        },
    }
}

proof fn lemma_enc_recs_push(rs: Seq<RecordV>, r: RecordV)
    ensures
        enc_recs(rs.push(r)) == enc_recs(rs) + enc_rec(r),
    decreases rs.len(),
{
    if rs.len() == 0 {
        let p = rs.push(r);
        assert(p[0] == r);
        assert(p.skip(1) =~= Seq::<RecordV>::empty());
        assert(enc_recs(p.skip(1)) == Seq::<char>::empty());
        assert(enc_recs(p) == enc_rec(r) + Seq::<char>::empty());
        assert(enc_recs(rs) == Seq::<char>::empty());
        assert(enc_recs(p) =~= enc_recs(rs) + enc_rec(r));
    } else {
        assert(rs.push(r).skip(1) =~= rs.skip(1).push(r));
        lemma_enc_recs_push(rs.skip(1), r);
        assert(rs.push(r)[0] == rs[0]);
        assert(enc_recs(rs.push(r)) == enc_rec(rs[0]) + (enc_recs(rs.skip(1)) + enc_rec(r)));
        assert(enc_rec(rs[0]) + (enc_recs(rs.skip(1)) + enc_rec(r)) =~= (enc_rec(rs[0]) + enc_recs(
            rs.skip(1),
        )) + enc_rec(r));
    }
}

/// The index artifact for the given records, as characters.
pub fn encode_records(v: &Vec<CachedFile>) -> (out: Vec<char>)
    ensures
        out@ == enc_index(v.deep_view()),
{
    let mut out: Vec<char> = Vec::new();
    push_hex(&mut out, v.len() as u64, 16);
    assert(v.deep_view().len() == v@.len());
    let mut i: usize = 0;
    while i < v.len()
        invariant
            0 <= i <= v@.len(),
            v.deep_view().len() == v@.len(),
            out@ == enc_u64(v.deep_view().len()) + enc_recs(v.deep_view().take(i as int)),
        decreases v@.len() - i,
    {
        let ghost pre = v.deep_view().take(i as int);
        push_record(&mut out, &v[i]);
        proof {
            assert(v.deep_view()[i as int] == v@[i as int]@);
            lemma_enc_recs_push(pre, v.deep_view()[i as int]);
            assert(v.deep_view().take(i + 1) =~= pre.push(v.deep_view()[i as int]));
            assert(out@ =~= enc_u64(v.deep_view().len()) + enc_recs(v.deep_view().take(i + 1)));
        }
        i = i + 1;
    }
    assert(v.deep_view().take(v@.len() as int) =~= v.deep_view());
    out
}

// ---------------------------------------------------------------------------
// Decoding, executable
// ---------------------------------------------------------------------------

fn take_u64_at(s: &Vec<char>, pos: usize) -> (r: Option<(u64, usize)>)
    requires
        pos <= s@.len(),
    ensures
        match r {
            Some(v) => pos <= v.1 <= s@.len() && take_u64(s@.skip(pos as int)) == Some(
                (v.0, s@.skip(v.1 as int)),
            ),
            None => take_u64(s@.skip(pos as int)) is None,
        },
{
    let slen = s.len();
    if slen - pos < 16 {
        assert(s@.skip(pos as int).len() < 16);
        return None;
    }
    let ghost tail = s@.skip(pos as int);
    proof {
        assert(tail.take(16) =~= s@.subrange(pos as int, pos as int + 16));
    }
    match read_hex16(s, pos) {
        None => None,
        Some(v) => {
            proof {
                lemma_hex_seq_val_bounds(tail.take(16));
                assert(tail.skip(16) =~= s@.skip(pos as int + 16));
            }
            Some((v, pos + 16))
        },
    }
}

fn take_str_at(s: &Vec<char>, pos: usize) -> (r: Option<(String, usize)>)
    requires
        pos <= s@.len(),
    ensures
        match r {
            Some(v) => pos <= v.1 <= s@.len() && take_str(s@.skip(pos as int)) == Some(
                (v.0@, s@.skip(v.1 as int)),
            ),
            None => take_str(s@.skip(pos as int)) is None,
        },
{
    let ghost tail = s@.skip(pos as int);
    match take_u64_at(s, pos) {
        None => None,
        Some((n, p)) => {
            let slen = s.len();
            if n > (slen - p) as u64 {
                assert(s@.skip(p as int).len() < n);
                return None;
            }
            let nn = n as usize;
            let mut chars: Vec<char> = Vec::new();
            let mut i: usize = 0;
            while i < nn
                invariant
                    0 <= i <= nn,
                    p + nn <= slen,
                    slen == s@.len(),
                    chars@ == s@.subrange(p as int, p as int + i),
                decreases nn - i,
            {
                chars.push(s[p + i]);
                i = i + 1;
                assert(chars@ =~= s@.subrange(p as int, p as int + i));
            }
            let out = crate::chars::chars_to_string(&chars);
            proof {
                assert(s@.skip(p as int).take(n as int) =~= s@.subrange(p as int, p as int + nn));
                assert(s@.skip(p as int).skip(n as int) =~= s@.skip(p as int + nn));
            }
            Some((out, p + nn))
        },
    }
}

fn take_i32_at(s: &Vec<char>, pos: usize) -> (r: Option<(i32, usize)>)
    requires
        pos <= s@.len(),
    ensures
        match r {
            Some(v) => pos <= v.1 <= s@.len() && take_i32(s@.skip(pos as int)) == Some(
                (v.0, s@.skip(v.1 as int)),
            ),
            None => take_i32(s@.skip(pos as int)) is None,
        },
{
    let slen = s.len();
    if pos >= slen {
        assert(s@.skip(pos as int).len() == 0);
        return None;
    }
    let ghost tail = s@.skip(pos as int);
    assert(tail[0] == s@[pos as int]);
    let c = s[pos];
    proof {
        assert(tail.skip(1) =~= s@.skip(pos as int + 1));
    }
    if c == '-' {
        match take_u64_at(s, pos + 1) {
            None => None,
            Some((m, p)) => {
                if m >= 1 && m <= 0x8000_0000u64 {
                    let vi: i64 = -(m as i64);
                    Some((vi as i32, p))
                } else {
                    None
                }
            },
        }
    } else if c == '+' {
        match take_u64_at(s, pos + 1) {
            None => None,
            Some((m, p)) => {
                if m <= 0x7fff_ffffu64 {
                    Some((m as i32, p))
                } else {
                    None
                }
            },
        }
    } else {
        None
    }
}

fn take_opt_at(s: &Vec<char>, pos: usize) -> (r: Option<(Option<u64>, usize)>)
    requires
        pos <= s@.len(),
    ensures
        match r {
            Some(v) => pos <= v.1 <= s@.len() && take_opt(s@.skip(pos as int)) == Some(
                (v.0, s@.skip(v.1 as int)),
            ),
            None => take_opt(s@.skip(pos as int)) is None,
        },
{
    let slen = s.len();
    if pos >= slen {
        assert(s@.skip(pos as int).len() == 0);
        return None;
    }
    let ghost tail = s@.skip(pos as int);
    assert(tail[0] == s@[pos as int]);
    let c = s[pos];
    proof {
        assert(tail.skip(1) =~= s@.skip(pos as int + 1));
    }
    if c == 'n' {
        Some((None, pos + 1))
    } else if c == 's' {
        match take_u64_at(s, pos + 1) {
            None => None,
            Some((e, p)) => Some((Some(e), p)),
        }
    } else {
        None
    }
}

fn take_rec_at(s: &Vec<char>, pos: usize) -> (r: Option<(CachedFile, usize)>)
    requires
        pos <= s@.len(),
    ensures
        match r {
            Some(v) => pos <= v.1 <= s@.len() && take_rec(s@.skip(pos as int)) == Some(
                (v.0@, s@.skip(v.1 as int)),
            ),
            None => take_rec(s@.skip(pos as int)) is None,
        },
{
    let (url, p1) = match take_str_at(s, pos) {
        None => {
            return None;
        },
        Some(v) => v,
    };
    let (path, p2) = match take_str_at(s, p1) {
        None => {
            return None;
        },
        Some(v) => v,
    };
    let (cached_time, p3) = match take_u64_at(s, p2) {
        None => {
            return None;
        },
        Some(v) => v,
    };
    let (random, p4) = match take_i32_at(s, p3) {
        None => {
            return None;
        },
        Some(v) => v,
    };
    let (expire_time, p5) = match take_opt_at(s, p4) {
        None => {
            return None;
        },
        Some(v) => v,
    };
    Some((CachedFile { url, path, cached_time, random, expire_time }, p5))
}

fn urls_unique(v: &Vec<CachedFile>) -> (r: bool)
    ensures
        r == urls_distinct(v.deep_view()),
{
    let n = v.len();
    let mut j: usize = 1;
    while j < n
        invariant
            1 <= j <= n || n == 0,
            n == v@.len(),
            forall|a: int, b: int|
                0 <= a < b < j ==> (#[trigger] v.deep_view()[a]).url != (
                #[trigger] v.deep_view()[b]).url,
        decreases n - j,
    {
        let mut i: usize = 0;
        while i < j
            invariant
                0 <= i <= j < n,
                n == v@.len(),
                forall|a: int|
                    0 <= a < i ==> (#[trigger] v.deep_view()[a]).url != v.deep_view()[j as int].url,
            decreases j - i,
        {
            if v[i].url.eq(&v[j].url) {
                assert(v.deep_view()[i as int].url == v.deep_view()[j as int].url);
                return false;
            }
            i = i + 1;
        }
        j = j + 1;
    }
    true
}

pub open spec fn cons_result(acc: Seq<RecordV>, r: Option<(Seq<RecordV>, Seq<char>)>) -> Option<
    (Seq<RecordV>, Seq<char>),
> {
    match r {
        None => None,
        Some((rs, rest)) => Some((acc + rs, rest)),
    }
}

/// Reads an index artifact back.  Returns the records exactly when the text
/// is a well-formed artifact; anything else — short, corrupt, trailing
/// characters, a repeated URL — denotes nothing.
pub fn decode_records(text: &str) -> (r: Option<Vec<CachedFile>>)
    ensures
        match r {
            Some(v) => spec_decode(text@) == Some(v.deep_view()),
            None => spec_decode(text@) is None,
        },
{
    let s = str_to_chars(text);
    assert(s@.skip(0) =~= text@);
    let (n, pos0) = match take_u64_at(&s, 0) {
        None => {
            return None;
        },
        Some(v) => v,
    };
    let mut acc: Vec<CachedFile> = Vec::new();
    let mut pos: usize = pos0;
    let mut i: u64 = 0;
    while i < n
        invariant
            0 <= i <= n,
            pos <= s@.len(),
            s@ == text@,
            take_u64(s@) == Some((n, s@.skip(pos0 as int))),
            cons_result(acc.deep_view(), take_recs(s@.skip(pos as int), (n - i) as nat))
                == take_recs(s@.skip(pos0 as int), n as nat),
        decreases n - i,
    {
        let ghost old_acc = acc.deep_view();
        let ghost left = (n - i) as nat;
        match take_rec_at(&s, pos) {
            None => {
                proof {
                    assert(take_recs(s@.skip(pos as int), left) is None);
                }
                return None;
            },
            Some((rec, newpos)) => {
                proof {
                    let tail = s@.skip(pos as int);
                    let tail2 = s@.skip(newpos as int);
                    assert(take_rec(tail) == Some((rec@, tail2)));
                    assert(take_recs(tail, left) == match take_recs(tail2, (left - 1) as nat) {
                        None => None::<(Seq<RecordV>, Seq<char>)>,
                        Some((rs, rest2)) => Some((seq![rec@] + rs, rest2)),
                    });
                }
                acc.push(rec);
                proof {
                    assert(acc.deep_view() =~= old_acc.push(rec@));
                    let tail2 = s@.skip(newpos as int);
                    match take_recs(tail2, (left - 1) as nat) {
                        None => {},
                        Some((rs, rest2)) => {
                            assert(old_acc + (seq![rec@] + rs) =~= old_acc.push(rec@) + rs);
                        },
                    }
                }
                pos = newpos;
            },
        }
        i = i + 1;
    }
    proof {
        let tail = s@.skip(pos as int);
        assert(take_recs(tail, 0) == Some((Seq::<RecordV>::empty(), tail)));
        assert(acc.deep_view() + Seq::<RecordV>::empty() =~= acc.deep_view());
        assert(take_recs(s@.skip(pos0 as int), n as nat) == Some((acc.deep_view(), tail)));
    }
    let slen = s.len();
    if pos != slen {
        assert(s@.skip(pos as int).len() != 0);
        return None;
    }
    assert(s@.skip(pos as int).len() == 0);
    if urls_unique(&acc) {
        Some(acc)
    } else {
        None
    }
}

// ---------------------------------------------------------------------------
// Round trip: an encoded index reads back as itself.
// ---------------------------------------------------------------------------

proof fn lemma_take_u64_enc(n: nat, rest: Seq<char>)
    requires
        n < pow16(16),
    ensures
        take_u64(enc_u64(n) + rest) == Some((n as u64, rest)),
{
    lemma_pow16_16();
    lemma_hex_roundtrip(n, 16);
    let s = enc_u64(n) + rest;
    assert(s.take(16) =~= enc_u64(n));
    assert(s.skip(16) =~= rest);
}

#[verifier::rlimit(50)]
proof fn lemma_take_str_enc(t: Seq<char>, rest: Seq<char>)
    requires
        t.len() < pow16(16),
    ensures
        take_str(enc_str(t) + rest) == Some((t, rest)),
{
    lemma_pow16_16();
    lemma_hex_roundtrip(t.len(), 16);
    assert(enc_u64(t.len()).len() == 16);
    assert(enc_str(t) + rest =~= enc_u64(t.len()) + (t + rest));
    lemma_take_u64_enc(t.len(), t + rest);
    let n = t.len() as u64;
    assert((t + rest).take(n as int) =~= t);
    assert((t + rest).skip(n as int) =~= rest);
}

proof fn lemma_take_i32_enc(v: i32, rest: Seq<char>)
    ensures
        take_i32(enc_i32(v) + rest) == Some((v, rest)),
{
    lemma_pow16_16();
    let s = enc_i32(v) + rest;
    if v < 0 {
        let m = (-(v as int)) as nat;
        assert(s[0] == '-');
        assert(s.skip(1) =~= enc_u64(m) + rest);
        lemma_take_u64_enc(m, rest);
        assert(0 < m as u64 <= 0x8000_0000u64);
        assert((-((m as u64) as int)) as i32 == v);
    } else {
        let m = v as nat;
        assert(s[0] == '+');
        assert(s.skip(1) =~= enc_u64(m) + rest);
        lemma_take_u64_enc(m, rest);
        assert(m as u64 <= 0x7fff_ffffu64);
        assert((m as u64) as i32 == v);
    }
}

proof fn lemma_take_opt_enc(o: Option<u64>, rest: Seq<char>)
    ensures
        take_opt(enc_opt(o) + rest) == Some((o, rest)),
{
    lemma_pow16_16();
    let s = enc_opt(o) + rest;
    match o {
        None => {
            assert(s[0] == 'n');
            assert(s.skip(1) =~= rest);
        },
        Some(e) => {
            assert(s[0] == 's');
            assert(s.skip(1) =~= enc_u64(e as nat) + rest);
            lemma_take_u64_enc(e as nat, rest);
        },
    }
}

proof fn lemma_take_rec_enc(r: RecordV, rest: Seq<char>)
    requires
        rec_bounded(r),
    ensures
        take_rec(enc_rec(r) + rest) == Some((r, rest)),
{
    lemma_pow16_16();
    let t4 = enc_opt(r.expire_time) + rest;
    let t3 = enc_i32(r.random) + t4;
    let t2 = enc_u64(r.cached_time as nat) + t3;
    let t1 = enc_str(r.path) + t2;
    assert(enc_rec(r) + rest =~= enc_str(r.url) + t1);
    lemma_take_str_enc(r.url, t1);
    lemma_take_str_enc(r.path, t2);
    lemma_take_u64_enc(r.cached_time as nat, t3);
    lemma_take_i32_enc(r.random, t4);
    lemma_take_opt_enc(r.expire_time, rest);
    assert((r.cached_time as nat) as u64 == r.cached_time);
}

#[verifier::rlimit(50)]
proof fn lemma_take_recs_enc(rs: Seq<RecordV>, rest: Seq<char>)
    requires
        forall|i: int| 0 <= i < rs.len() ==> rec_bounded(#[trigger] rs[i]),
    ensures
        take_recs(enc_recs(rs) + rest, rs.len()) == Some((rs, rest)),
    decreases rs.len(),
{
    if rs.len() == 0 {
        assert(enc_recs(rs) + rest =~= rest);
        assert(Seq::<RecordV>::empty() =~= rs);
    } else {
        let tail = rs.skip(1);
        assert(enc_recs(rs) + rest =~= enc_rec(rs[0]) + (enc_recs(tail) + rest));
        lemma_take_rec_enc(rs[0], enc_recs(tail) + rest);
        assert(forall|i: int|
            0 <= i < tail.len() ==> rec_bounded(#[trigger] tail[i]) && tail[i] == rs[i + 1]);
        lemma_take_recs_enc(tail, rest);
        assert(seq![rs[0]] + tail =~= rs);
    }
}

/// Round trip of the index artifact: decoding what was encoded yields
/// exactly the records that were encoded, for every index whose URLs are
/// pairwise distinct and whose strings a real machine can hold.
pub proof fn lemma_codec_roundtrip(rs: Seq<RecordV>)
    requires
        recs_bounded(rs),
        urls_distinct(rs),
    ensures
        spec_decode(enc_index(rs)) == Some(rs),
{
    lemma_pow16_16();
    lemma_take_u64_enc(rs.len(), enc_recs(rs));
    assert(enc_index(rs) == enc_u64(rs.len()) + enc_recs(rs));
    assert(enc_recs(rs) + Seq::<char>::empty() =~= enc_recs(rs));
    lemma_take_recs_enc(rs, Seq::<char>::empty());
    assert((rs.len() as u64) as nat == rs.len());
}

}
