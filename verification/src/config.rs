use vstd::prelude::*;
use crate::numbers::{all_dec_digits, dec_seq_val, parse_u64};
use crate::paths::str_eq;

verus! {

/// A half-open interval `[start, end)` of signed second offsets, from which
/// each new record's random lifetime offset is drawn.
pub struct OffsetRange {
    pub start: i32,
    pub end: i32,
}

/// The engine's read-only settings: where the index artifact and the cached
/// files live, the offset interval, and the base lifetime of a cached file
/// in seconds.
pub struct Config {
    pub cache_json: String,
    pub cache_dir: String,
    pub default_offset_range: OffsetRange,
    pub file_lifetime: u64,
}

/// The stock settings: paths under `$HOME/.cache/file-cacher` (variable
/// expansion is the embedding program's concern), an offset interval of
/// twenty hours centered on zero, and a twenty-day base lifetime.
pub open spec fn is_default_config(c: Config) -> bool {
    &&& c.cache_json@ == "$HOME/.cache/file-cacher/cache.json"@
    &&& c.cache_dir@ == "$HOME/.cache/file-cacher/cache/"@
    &&& c.default_offset_range.start == -36000
    &&& c.default_offset_range.end == 36001
    &&& c.file_lifetime == 1728000
}

impl Default for Config {
    fn default() -> (r: Config)
        ensures
            is_default_config(r),
    {
        Config {
            cache_json: String::from_str("$HOME/.cache/file-cacher/cache.json"),
            cache_dir: String::from_str("$HOME/.cache/file-cacher/cache/"),
            default_offset_range: OffsetRange { start: -36000, end: 36001 },
            file_lifetime: 1728000,
        }
    }
}

/// The meaning of a signed decimal numeral: an optional leading minus sign,
/// then digits, within the range of `i32`.
pub open spec fn spec_parse_i32(s: Seq<char>) -> Option<i32> {
    if s.len() >= 1 && s[0] == '-' {
        let t = s.skip(1);
        if t.len() > 0 && all_dec_digits(t) && dec_seq_val(t) <= 0x8000_0000 {
            Some((-dec_seq_val(t)) as i32)
        } else {
            None
        }
    } else {
        if s.len() > 0 && all_dec_digits(s) && dec_seq_val(s) <= 0x7fff_ffff {
            Some(dec_seq_val(s) as i32)
        } else {
            None
        }
    }
}

/// Reads a signed decimal numeral.
pub fn parse_i32(s: &str) -> (r: Option<i32>)
    ensures
        r == spec_parse_i32(s@),
{
    let n = s.unicode_len();
    if n >= 1 && s.get_char(0) == '-' {
        let rest = s.substring_char(1, n);
        assert(rest@ == s@.skip(1)) by {
            assert(s@.subrange(1, n as int) =~= s@.skip(1));
        }
        match parse_u64(rest) {
            Some(m) => {
                if m <= 0x8000_0000u64 {
                    let v: i64 = -(m as i64);
                    Some(v as i32)
                } else {
                    None
                }
            },
            None => None,
        }
    } else {
        match parse_u64(s) {
            Some(m) => {
                if m <= 0x7fff_ffffu64 {
                    Some(m as i32)
                } else {
                    None
                }
            },
            None => None,
        }
    }
}

/// Positions `i` and `i + 1` hold the `..` separator.
pub open spec fn sep_at(s: Seq<char>, i: int) -> bool {
    0 <= i && i + 2 <= s.len() && s[i] == '.' && s[i + 1] == '.'
}

/// The position of the first `..` separator, if any.
pub open spec fn find_sep(s: Seq<char>) -> Option<nat>
    decreases s.len(),
{
    if s.len() < 2 {
        None
    } else if s[0] == '.' && s[1] == '.' {
        Some(0)
    } else {
        match find_sep(s.skip(1)) {
            None => None,
            Some(k) => Some((k + 1) as nat),
        }
    }
}

proof fn lemma_find_sep(s: Seq<char>)
    ensures
        match find_sep(s) {
            Some(i) => sep_at(s, i as int) && forall|j: int| 0 <= j < i ==> !sep_at(s, j),
            None => forall|j: int| !sep_at(s, j),
        },
    decreases s.len(),
{
    if s.len() < 2 {
    } else if s[0] == '.' && s[1] == '.' {
    } else {
        let t = s.skip(1);
        lemma_find_sep(t);
        assert(forall|j: int| 0 <= j && j + 2 <= t.len() ==> t[j] == s[j + 1] && #[trigger] t[j + 1]
            == s[j + 2]);
        match find_sep(t) {
            None => {
                assert forall|j: int| !sep_at(s, j) by {
                    if sep_at(s, j) {
                        if j == 0 {
                            assert(false);
                        } else {
                            assert(t[j - 1] == s[j] && t[j] == s[j + 1]);
                            assert(sep_at(t, j - 1));
                        }
                    }
                }
            },
            Some(k) => {
                let ki = k as int;
                assert(t[ki] == s[ki + 1] && t[ki + 1] == s[ki + 2]);
                assert(sep_at(s, ki + 1));
                assert forall|j: int| 0 <= j < k + 1 implies !sep_at(s, j) by {
                    if sep_at(s, j) && j > 0 {
                        assert(t[j - 1] == s[j] && t[j] == s[j + 1]);
                        assert(sep_at(t, j - 1));
                    }
                }
            },
        }
    }
}

/// The meaning of a range text: the numeral before the first `..`, and the
/// numeral after it.
pub open spec fn spec_parse_range(s: Seq<char>) -> Option<(i32, i32)> {
    match find_sep(s) {
        None => None,
        Some(i) => match (spec_parse_i32(s.take(i as int)), spec_parse_i32(s.skip(i as int + 2))) {
            (Some(a), Some(b)) => Some((a, b)),
            _ => None,
        },
    }
}

/// Reads a half-open interval written `start..end`, two signed decimal
/// numerals around the first `..`.  Returns the interval exactly when both
/// sides parse; a missing separator or a malformed side yields nothing.
pub fn parse_range(s: &str) -> (r: Option<OffsetRange>)
    ensures
        match r {
            Some(or) => spec_parse_range(s@) == Some((or.start, or.end)),
            None => spec_parse_range(s@) is None,
        },
{
    proof {
        lemma_find_sep(s@);
    }
    let n = s.unicode_len();
    let mut i: usize = 0;
    while n >= 2 && i <= n - 2 && !(s.get_char(i) == '.' && s.get_char(i + 1) == '.')
        invariant
            0 <= i <= n,
            n == s@.len(),
            forall|j: int| 0 <= j < i ==> !sep_at(s@, j),
        decreases n - i,
    {
        i = i + 1;
    }
    if n < 2 || i > n - 2 {
        proof {
            if find_sep(s@) is Some {
                let k = find_sep(s@)->0;
                assert(sep_at(s@, k as int));
                assert(!sep_at(s@, k as int));
            }
        }
        return None;
    }
    assert(sep_at(s@, i as int));
    proof {
        match find_sep(s@) {
            None => {
                assert(!sep_at(s@, i as int));
            },
            Some(k) => {
                if (k as int) < i as int {
                    assert(!sep_at(s@, k as int));
                } else if (k as int) > i as int {
                    assert(!sep_at(s@, i as int));
                }
            },
        }
    }
    assert(find_sep(s@) == Some(i as nat));
    let a = s.substring_char(0, i);
    let b = s.substring_char(i + 2, n);
    assert(a@ == s@.take(i as int)) by {
        assert(s@.subrange(0, i as int) =~= s@.take(i as int));
    }
    assert(b@ == s@.skip(i as int + 2)) by {
        assert(s@.subrange(i as int + 2, n as int) =~= s@.skip(i as int + 2));
    }
    match (parse_i32(a), parse_i32(b)) {
        (Some(x), Some(y)) => Some(OffsetRange { start: x, end: y }),
        _ => None,
    }
}

/// The value paired with the first occurrence of `key`.
pub open spec fn lookup_key(pairs: Seq<(Seq<char>, Seq<char>)>, key: Seq<char>) -> Option<
    Seq<char>,
>
    decreases pairs.len(),
{
    if pairs.len() == 0 {
        None
    } else if pairs[0].0 == key {
        Some(pairs[0].1)
    } else {
        lookup_key(pairs.skip(1), key)
    }
}

fn lookup_pair(map: &Vec<(String, String)>, key: &str) -> (r: Option<String>)
    ensures
        match r {
            Some(v) => lookup_key(map.deep_view(), key@) == Some(v@),
            None => lookup_key(map.deep_view(), key@) is None,
        },
{
    let n = map.len();
    let ghost pairs = map.deep_view();
    assert(pairs.skip(0) =~= pairs);
    let mut i: usize = 0;
    while i < n
        invariant
            0 <= i <= n,
            n == map@.len(),
            pairs == map.deep_view(),
            pairs.len() == n,
            lookup_key(pairs, key@) == lookup_key(pairs.skip(i as int), key@),
        decreases n - i,
    {
        if str_eq(map[i].0.as_str(), key) {
            proof {
                assert(pairs.skip(i as int)[0] == pairs[i as int]);
                assert(pairs[i as int].0 == key@);
            }
            return Some(map[i].1.clone());
        }
        proof {
            assert(pairs.skip(i as int)[0] == pairs[i as int]);
            assert(pairs[i as int].0 != key@);
            assert(pairs.skip(i as int).skip(1) =~= pairs.skip(i as int + 1));
        }
        i = i + 1;
    }
    assert(pairs.skip(n as int).len() == 0);
    None
}

impl Config {
    /// Builds the settings from configuration key-value pairs: for each
    /// recognized key whose first value is well-formed, that value; the
    /// stock setting otherwise.
    pub fn config_from_hashmap(map: &Vec<(String, String)>) -> (r: Config)
        ensures
            r.cache_json@ == match lookup_key(map.deep_view(), "cache-db"@) {
                Some(v) => v,
                None => "$HOME/.cache/file-cacher/cache.json"@,
            },
            r.cache_dir@ == match lookup_key(map.deep_view(), "cache-dir"@) {
                Some(v) => v,
                None => "$HOME/.cache/file-cacher/cache/"@,
            },
            ({
                let d = (-36000i32, 36001i32);
                let or = match lookup_key(map.deep_view(), "random-offset-range"@) {
                    Some(v) => match spec_parse_range(v) {
                        Some((a, b)) => (a, b),
                        None => d,
                    },
                    None => d,
                };
                r.default_offset_range.start == or.0 && r.default_offset_range.end == or.1
            }),
            r.file_lifetime as int == match lookup_key(map.deep_view(), "file-default-lifetime"@) {
                Some(v) => if v.len() > 0 && all_dec_digits(v) && dec_seq_val(v) <= u64::MAX {
                    dec_seq_val(v)
                } else {
                    1728000
                },
                None => 1728000,
            },
    {
        let mut conf = Config::default();
        match lookup_pair(map, "cache-db") {
            Some(v) => {
                conf.cache_json = v;
            },
            None => {},
        }
        match lookup_pair(map, "cache-dir") {
            Some(v) => {
                conf.cache_dir = v;
            },
            None => {},
        }
        match lookup_pair(map, "random-offset-range") {
            Some(v) => {
                match parse_range(v.as_str()) {
                    Some(or) => {
                        conf.default_offset_range = or;
                    },
                    None => {},
                }
            },
            None => {},
        }
        match lookup_pair(map, "file-default-lifetime") {
            Some(v) => {
                match parse_u64(v.as_str()) {
                    Some(x) => {
                        conf.file_lifetime = x;
                    },
                    None => {},
                }
            },
            None => {},
        }
        conf
    }
}

}
