use vstd::prelude::*;
use crate::chars::chars_to_string;
use crate::codec::{encode_records, decode_records, enc_index, spec_decode, urls_distinct};
use crate::config::Config;
use crate::expiry::{clamped_expiry, spec_is_expired, is_expired, draw_jitter};
use crate::paths::{base_name, base_name_of, spec_join_path, join_path, str_eq};
use crate::record::{CachedFile, RecordV};
use crate::resolve::{candidate, resolve};

verus! {

/// Whether some record of `rs` is keyed by `url`.
pub open spec fn has_url(rs: Seq<RecordV>, url: Seq<char>) -> bool {
    exists|i: int| 0 <= i < rs.len() && (#[trigger] rs[i]).url == url
}

/// The position of the record keyed by `url`; meaningful under `has_url`
/// and distinct URLs.
pub open spec fn index_of_url(rs: Seq<RecordV>, url: Seq<char>) -> int {
    choose|i: int| 0 <= i < rs.len() && (#[trigger] rs[i]).url == url
}

/// The record keyed by `url`; meaningful under `has_url`.
pub open spec fn record_for(rs: Seq<RecordV>, url: Seq<char>) -> RecordV {
    rs[index_of_url(rs, url)]
}

/// The final path components of all recorded files: the names already taken
/// in the cache directory.
pub open spec fn names_of(rs: Seq<RecordV>) -> Seq<Seq<char>> {
    rs.map_values(|r: RecordV| base_name(r.path))
}

/// The cache engine: the URL-to-record index together with its read-only
/// settings.  Every operation here is a pure state transition; reading and
/// writing files, fetching bytes and persisting the encoded index are the
/// embedding program's side of each exchange.
pub struct Cacher {
    config: Config,
    file_map: Vec<CachedFile>,
}

impl View for Cacher {
    type V = Seq<RecordV>;

    closed spec fn view(&self) -> Seq<RecordV> {
        self.file_map.deep_view()
    }
}

impl Cacher {
    /// The engine's settings, unchanged for its lifetime.
    pub closed spec fn cfg(&self) -> Config {
        self.config
    }

    /// Internal consistency: one record per URL, and a non-empty offset
    /// interval to draw from.
    pub open spec fn wf(&self) -> bool {
        &&& urls_distinct(self@)
        &&& self.cfg().default_offset_range.start < self.cfg().default_offset_range.end
    }

    /// Builds an engine over the given settings (the stock ones when absent)
    /// and the saved index artifact, when one could be read.  A missing or
    /// malformed artifact degrades to an empty index.
    pub fn new(config: Option<Config>, saved: Option<&str>) -> (r: Cacher)
        requires
            config matches Some(c) ==> c.default_offset_range.start < c.default_offset_range.end,
        ensures
            r.wf(),
            match config {
                Some(c) => r.cfg() == c,
                None => crate::config::is_default_config(r.cfg()),
            },
            match saved {
                None => r@ == Seq::<RecordV>::empty(),
                Some(text) => match spec_decode(text@) {
                    Some(rs) => r@ == rs,
                    None => r@ == Seq::<RecordV>::empty(),
                },
            },
    {
        let config = match config {
            Some(c) => c,
            None => Config::default(),
        };
        let file_map: Vec<CachedFile> = match saved {
            None => {
                let v: Vec<CachedFile> = Vec::new();
                proof {
                    assert(v.deep_view() =~= Seq::<RecordV>::empty());
                }
                v
            },
            Some(text) => match decode_records(text) {
                Some(v) => v,
                None => {
                    let v: Vec<CachedFile> = Vec::new();
                    proof {
                        assert(v.deep_view() =~= Seq::<RecordV>::empty());
                    }
                    v
                },
            },
        };
        Cacher { config, file_map }
    }

    /// The index artifact to persist: the encoding of the current records.
    pub fn save(&self) -> (out: String)
        ensures
            out@ == enc_index(self@),
    {
        let chars = encode_records(&self.file_map);
        chars_to_string(&chars)
    }

    /// How many records the index holds.
    pub fn len(&self) -> (n: usize)
        ensures
            n == self@.len(),
    {
        self.file_map.len()
    }

    /// The recorded path for `url`, when a record exists.  Whether that path
    /// still names a regular file is for the caller to test; this reads
    /// nothing from disk.
    pub fn cached_path(&self, url: &str) -> (r: Option<String>)
        requires
            self.wf(),
        ensures
            match r {
                Some(p) => has_url(self@, url@) && p@ == record_for(self@, url@).path,
                None => !has_url(self@, url@),
            },
    {
        let n = self.file_map.len();
        let mut i: usize = 0;
        while i < n
            invariant
                0 <= i <= n,
                n == self@.len(),
                self.wf(),
                forall|j: int| 0 <= j < i ==> (#[trigger] self@[j]).url != url@,
            decreases n - i,
        {
            if str_eq(self.file_map[i].url.as_str(), url) {
                proof {
                    assert(self@[i as int].url == url@);
                    assert(has_url(self@, url@));
                    let j = index_of_url(self@, url@);
                    assert(0 <= j < self@.len() && self@[j].url == url@);
                    if j != i as int {
                        assert(false);
                    }
                }
                return Some(self.file_map[i].path.clone());
            }
            i = i + 1;
        }
        None
    }

    /// Removes the record for `url`, if any, and hands back its path so the
    /// caller can drop the file it names.
    pub fn remove_record(&mut self, url: &str) -> (r: Option<String>)
        requires
            old(self).wf(),
        ensures
            final(self).wf(),
            final(self).cfg() == old(self).cfg(),
            !has_url(final(self)@, url@),
            match r {
                Some(p) => {
                    &&& has_url(old(self)@, url@)
                    &&& p@ == record_for(old(self)@, url@).path
                    &&& final(self)@ == old(self)@.remove(index_of_url(old(self)@, url@))
                },
                None => !has_url(old(self)@, url@) && final(self)@ == old(self)@,
            },
    {
        let n = self.file_map.len();
        let mut i: usize = 0;
        while i < n
            invariant
                0 <= i <= n,
                n == self@.len(),
                self.wf(),
                self == old(self),
                forall|j: int| 0 <= j < i ==> (#[trigger] self@[j]).url != url@,
            decreases n - i,
        {
            if str_eq(self.file_map[i].url.as_str(), url) {
                let path = self.file_map[i].path.clone();
                proof {
                    assert(self@[i as int].url == url@);
                    assert(has_url(self@, url@));
                    let j = index_of_url(self@, url@);
                    assert(0 <= j < self@.len() && self@[j].url == url@);
                    if j != i as int {
                        assert(false);
                    }
                }
                let ghost pre = self@;
                self.file_map.remove(i);
                proof {
                    assert(self@ =~= pre.remove(i as int));
                    assert forall|a: int| 0 <= a < self@.len() implies (#[trigger] self@[a]).url
                        != url@ by {
                        if a < i as int {
                            assert(self@[a] == pre[a]);
                        } else {
                            assert(self@[a] == pre[a + 1]);
                        }
                    }
                    assert forall|a: int, b: int| 0 <= a < b < self@.len() implies (
                    #[trigger] self@[a]).url != (#[trigger] self@[b]).url by {
                        let pa = if a < i as int {
                            a
                        } else {
                            a + 1
                        };
                        let pb = if b < i as int {
                            b
                        } else {
                            b + 1
                        };
                        assert(self@[a] == pre[pa]);
                        assert(self@[b] == pre[pb]);
                    }
                }
                return Some(path);
            }
            i = i + 1;
        }
        None
    }

    /// The names already present in the cache directory according to the
    /// index: the final path component of every record.
    fn collect_names(&self) -> (v: Vec<String>)
        ensures
            v.deep_view() == names_of(self@),
    {
        let n = self.file_map.len();
        let mut v: Vec<String> = Vec::new();
        let mut i: usize = 0;
        while i < n
            invariant
                0 <= i <= n,
                n == self@.len(),
                v.deep_view() == names_of(self@).take(i as int),
            decreases n - i,
        {
            let name = base_name_of(self.file_map[i].path.as_str());
            assert(name@ == base_name(self@[i as int].path));
            let ghost dv_old = v.deep_view();
            v.push(name);
            i = i + 1;
            proof {
                let dv = v.deep_view();
                let expect = names_of(self@).take(i as int);
                assert(dv_old.len() == i - 1);
                assert(v@.len() == dv_old.len() + 1);
                assert(dv.len() == expect.len());
                assert forall|j: int| 0 <= j < dv.len() implies dv[j] == expect[j] by {
                    assert(expect[j] == base_name(self@[j].path));
                    if j < i - 1 {
                        assert(dv[j] == dv_old[j]);
                        assert(dv_old[j] == names_of(self@).take(i - 1)[j]);
                    } else {
                        assert(dv[j] == name@);
                    }
                }
                assert(dv =~~= expect);
            }
        }
        assert(names_of(self@).take(n as int) =~~= names_of(self@));
        v
    }

    /// Records a fresh download for a URL not presently indexed: picks a
    /// collision-free filename under the cache directory, draws the random
    /// lifetime offset, computes the explicit expiry from the offset the
    /// caller supplied, and appends the record.  Returns the path the
    /// caller must write the fetched bytes to.
    pub fn insert_new(
        &mut self,
        url: &str,
        desired_filename: &str,
        now: u64,
        expire_offset: Option<u64>,
    ) -> (path: String)
        requires
            old(self).wf(),
            !has_url(old(self)@, url@),
            expire_offset matches Some(o) ==> now + o <= u64::MAX,
        ensures
            final(self).wf(),
            final(self).cfg() == old(self).cfg(),
            final(self)@.len() == old(self)@.len() + 1,
            final(self)@ == old(self)@.push(final(self)@.last()),
            ({
                let rec = final(self)@.last();
                &&& rec.url == url@
                &&& rec.path == path@
                &&& rec.cached_time == now
                &&& old(self).cfg().default_offset_range.start <= rec.random
                    < old(self).cfg().default_offset_range.end
                &&& rec.expire_time == (match expire_offset {
                    Some(o) => Some((now + o) as u64),
                    None => None::<u64>,
                })
                &&& exists|k: nat|
                    {
                        &&& rec.path == spec_join_path(
                            old(self).cfg().cache_dir@,
                            candidate(desired_filename@, k),
                        )
                        &&& !names_of(old(self)@).contains(candidate(desired_filename@, k))
                        &&& forall|j: nat|
                            j < k ==> names_of(old(self)@).contains(
                                #[trigger] candidate(desired_filename@, j),
                            )
                    }
            }),
    {
        let names = self.collect_names();
        let filename = resolve(desired_filename, &names);
        let path = join_path(self.config.cache_dir.as_str(), filename.as_str());
        let random = draw_jitter(&self.config.default_offset_range);
        let expire_time = match expire_offset {
            Some(o) => Some(now + o),
            None => None,
        };
        let rec = CachedFile {
            url: String::from_str(url),
            path: path.clone(),
            cached_time: now,
            random,
            expire_time,
        };
        let ghost pre = self@;
        let ghost recv = rec@;
        self.file_map.push(rec);
        proof {
            assert(self@ =~= pre.push(recv));
            assert(self@.last() == recv);
            assert forall|a: int, b: int| 0 <= a < b < self@.len() implies (
            #[trigger] self@[a]).url != (#[trigger] self@[b]).url by {
                if b < pre.len() {
                    assert(self@[a] == pre[a] && self@[b] == pre[b]);
                } else {
                    assert(self@[b] == recv);
                    assert(self@[a] == pre[a]);
                    if pre[a].url == url@ {
                        assert(has_url(pre, url@));
                    }
                }
            }
        }
        path
    }

    /// Evicts every expired record: keeps exactly the records still valid at
    /// `now`, and returns the paths of the evicted ones so the caller can
    /// delete their files (best effort; the index no longer speaks of them
    /// either way).
    pub fn clean_expired(&mut self, now: u64) -> (removed: Vec<String>)
        requires
            old(self).wf(),
        ensures
            final(self).wf(),
            final(self).cfg() == old(self).cfg(),
            final(self)@ == old(self)@.filter(
                |r: RecordV| !spec_is_expired(r, old(self).cfg().file_lifetime, now),
            ),
            removed.deep_view() == old(self)@.filter(
                |r: RecordV| spec_is_expired(r, old(self).cfg().file_lifetime, now),
            ).map_values(|r: RecordV| r.path),
    {
        let ghost lifetime_g = self.cfg().file_lifetime;
        let ghost keep_pred = |r: RecordV| !spec_is_expired(r, lifetime_g, now);
        let ghost drop_pred = |r: RecordV| spec_is_expired(r, lifetime_g, now);
        let ghost path_of = |r: RecordV| r.path;
        let lifetime = self.config.file_lifetime;
        let n = self.file_map.len();
        let mut kept: Vec<CachedFile> = Vec::new();
        let mut removed: Vec<String> = Vec::new();
        let mut i: usize = 0;
        while i < n
            invariant
                0 <= i <= n,
                n == self@.len(),
                self == old(self),
                lifetime == lifetime_g,
                lifetime_g == self.cfg().file_lifetime,
                keep_pred == (|r: RecordV| !spec_is_expired(r, lifetime_g, now)),
                drop_pred == (|r: RecordV| spec_is_expired(r, lifetime_g, now)),
                path_of == (|r: RecordV| r.path),
                kept.deep_view() == self@.take(i as int).filter(keep_pred),
                removed.deep_view() == self@.take(i as int).filter(drop_pred).map_values(path_of),
            decreases n - i,
        {
            let rec = self.file_map[i].clone();
            assert(rec@ == self@[i as int]);
            let ghost rv = rec@;
            let ghost kept_pre = kept.deep_view();
            let ghost removed_pre = removed.deep_view();
            let expired = is_expired(&rec, lifetime, now);
            if expired {
                removed.push(rec.path);
            } else {
                kept.push(rec);
            }
            proof {
                lemma_filter_step(self@, i as int, keep_pred);
                lemma_filter_step(self@, i as int, drop_pred);
                if expired {
                    assert(kept.deep_view() == self@.take(i + 1).filter(keep_pred));
                    let dv = removed.deep_view();
                    let expect = self@.take(i + 1).filter(drop_pred).map_values(path_of);
                    assert(self@.take(i + 1).filter(drop_pred) == self@.take(i as int).filter(
                        drop_pred,
                    ).push(rv));
                    assert(dv.len() == removed_pre.len() + 1);
                    assert(expect.len() == removed_pre.len() + 1);
                    assert forall|j: int| 0 <= j < dv.len() implies dv[j] == expect[j] by {
                        if j < dv.len() - 1 {
                            assert(dv[j] == removed_pre[j]);
                            assert(expect[j] == self@.take(i as int).filter(drop_pred).map_values(
                                path_of,
                            )[j]);
                        } else {
                            assert(dv[j] == rv.path);
                            assert(expect[j] == path_of(rv));
                        }
                    }
                    assert(dv =~~= expect);
                } else {
                    assert(removed.deep_view() == self@.take(i + 1).filter(drop_pred).map_values(
                        path_of,
                    ));
                    let dv = kept.deep_view();
                    let expect = self@.take(i + 1).filter(keep_pred);
                    assert(expect == self@.take(i as int).filter(keep_pred).push(rv));
                    assert(dv.len() == kept_pre.len() + 1);
                    assert forall|j: int| 0 <= j < dv.len() implies dv[j] == expect[j] by {
                        if j < dv.len() - 1 {
                            assert(dv[j] == kept_pre[j]);
                        } else {
                            assert(dv[j] == rv);
                        }
                    }
                    assert(dv =~~= expect);
                }
            }
            i = i + 1;
        }
        proof {
            assert(self@.take(n as int) =~= self@);
            lemma_filter_distinct(self@, keep_pred);
        }
        self.file_map = kept;
        removed
    }

    /// Empties the index and returns the path of every record that was in
    /// it, so the caller can delete the files and persist the empty index.
    /// The number of paths returned is the number of records cleared.
    pub fn clear(&mut self) -> (removed: Vec<String>)
        requires
            old(self).wf(),
        ensures
            final(self).wf(),
            final(self).cfg() == old(self).cfg(),
            final(self)@ == Seq::<RecordV>::empty(),
            removed.deep_view() == old(self)@.map_values(|r: RecordV| r.path),
    {
        let ghost path_of = |r: RecordV| r.path;
        let n = self.file_map.len();
        let mut removed: Vec<String> = Vec::new();
        let mut i: usize = 0;
        while i < n
            invariant
                0 <= i <= n,
                n == self@.len(),
                self == old(self),
                path_of == (|r: RecordV| r.path),
                removed.deep_view() == self@.take(i as int).map_values(path_of),
            decreases n - i,
        {
            let ghost removed_pre = removed.deep_view();
            removed.push(self.file_map[i].path.clone());
            i = i + 1;
            proof {
                let dv = removed.deep_view();
                let expect = self@.take(i as int).map_values(path_of);
                assert(removed_pre.len() == i - 1);
                assert(dv.len() == removed_pre.len() + 1);
                assert forall|j: int| 0 <= j < dv.len() implies dv[j] == expect[j] by {
                    if j < i - 1 {
                        assert(dv[j] == removed_pre[j]);
                        assert(removed_pre[j] == self@.take(i - 1).map_values(path_of)[j]);
                    }
                }
                assert(dv =~~= expect);
            }
        }
        assert(self@.take(n as int) =~= self@);
        self.file_map = Vec::new();
        proof {
            assert(self@ =~= Seq::<RecordV>::empty());
        }
        removed
    }

    /// Aggregates over the records whose file is live: `sizes` lists, for
    /// each record in index order, the size of its file, or nothing where
    /// the path no longer names a regular file.  Dead records are left out
    /// of every aggregate; nothing here mutates the index.  The total
    /// saturates at the largest `u64`.
    pub fn stats(&self, sizes: &Vec<Option<u64>>) -> (r: Stats)
        requires
            self.wf(),
            sizes@.len() == self@.len(),
            self@.len() <= i32::MAX,
        ensures
            r.number_of_cached_files == count_live(sizes@),
            r.total_size as int == if total_live(sizes@) > u64::MAX {
                u64::MAX as int
            } else {
                total_live(sizes@)
            },
            count_live(sizes@) == 0 ==> {
                &&& r.max_file_size.0@ == Seq::<char>::empty() && r.max_file_size.1 == 0
                &&& r.min_file_size.0@ == Seq::<char>::empty() && r.min_file_size.1 == u64::MAX
                &&& r.first_to_expire.0@ == Seq::<char>::empty() && r.first_to_expire.1 == u64::MAX
                &&& r.last_to_expire.0@ == Seq::<char>::empty() && r.last_to_expire.1 == 0
            },
            count_live(sizes@) > 0 ==> {
                &&& exists|i: int|
                    #[trigger] first_max_size(sizes@, i) && r.max_file_size.0@ == self@[i].path
                        && r.max_file_size.1 == sizes@[i]->0
                &&& exists|i: int|
                    #[trigger] first_min_size(sizes@, i) && r.min_file_size.0@ == self@[i].path
                        && r.min_file_size.1 == sizes@[i]->0
                &&& exists|i: int|
                    #[trigger] first_last_expiry(self@, sizes@, self.cfg().file_lifetime, i)
                        && r.last_to_expire.0@ == self@[i].path && r.last_to_expire.1
                        == clamped_expiry(self@[i], self.cfg().file_lifetime)
                &&& exists|i: int|
                    #[trigger] first_soonest_expiry(self@, sizes@, self.cfg().file_lifetime, i)
                        && r.first_to_expire.0@ == self@[i].path && r.first_to_expire.1
                        == clamped_expiry(self@[i], self.cfg().file_lifetime)
            },
    {
        let ghost lt = self.cfg().file_lifetime;
        let lifetime = self.config.file_lifetime;
        let n = self.file_map.len();
        let mut count: i32 = 0;
        let mut total: u64 = 0;
        let mut max_pair: (String, u64) = (String::new(), 0);
        let mut min_pair: (String, u64) = (String::new(), u64::MAX);
        let mut first_pair: (String, u64) = (String::new(), u64::MAX);
        let mut last_pair: (String, u64) = (String::new(), 0);
        let ghost mut gmax: int = 0;
        let ghost mut gmin: int = 0;
        let ghost mut gfirst: int = 0;
        let ghost mut glast: int = 0;
        let mut i: usize = 0;
        while i < n
            invariant
                0 <= i <= n,
                n == self@.len(),
                n == sizes@.len(),
                n <= i32::MAX,
                lifetime == lt,
                lt == self.cfg().file_lifetime,
                count == count_live(sizes@.take(i as int)),
                total as int == if total_live(sizes@.take(i as int)) > u64::MAX {
                    u64::MAX as int
                } else {
                    total_live(sizes@.take(i as int))
                },
                count == 0 ==> {
                    &&& max_pair.0@ == Seq::<char>::empty() && max_pair.1 == 0
                    &&& min_pair.0@ == Seq::<char>::empty() && min_pair.1 == u64::MAX
                    &&& first_pair.0@ == Seq::<char>::empty() && first_pair.1 == u64::MAX
                    &&& last_pair.0@ == Seq::<char>::empty() && last_pair.1 == 0
                },
                count > 0 ==> {
                    &&& first_max_size(sizes@.take(i as int), gmax) && max_pair.0@
                        == self@[gmax].path && max_pair.1 == sizes@[gmax]->0
                    &&& first_min_size(sizes@.take(i as int), gmin) && min_pair.0@
                        == self@[gmin].path && min_pair.1 == sizes@[gmin]->0
                    &&& first_last_expiry(self@, sizes@.take(i as int), lt, glast) && last_pair.0@
                        == self@[glast].path && last_pair.1 == clamped_expiry(self@[glast], lt)
                    &&& first_soonest_expiry(self@, sizes@.take(i as int), lt, gfirst)
                        && first_pair.0@ == self@[gfirst].path && first_pair.1 == clamped_expiry(
                        self@[gfirst],
                        lt,
                    )
                },
            decreases n - i,
        {
            proof {
                lemma_count_live_step(sizes@, i as int);
                lemma_count_live_facts(sizes@.take(i as int));
                assert(forall|j: int|
                    0 <= j < i ==> sizes@.take(i + 1)[j] == #[trigger] sizes@.take(i as int)[j]);
                assert(forall|j: int| j < i ==> (live(sizes@.take(i + 1), j) <==> live(
                    sizes@.take(i as int),
                    j,
                )));
            }
            match sizes[i] {
                None => {
                    proof {
                        let t0 = sizes@.take(i as int);
                        let t1 = sizes@.take(i + 1);
                        assert(!live(t1, i as int));
                        assert forall|j: int| live(t1, j) implies live(t0, j) && t1[j] == t0[j] by {
                            if j == i {
                                assert(false);
                            }
                        }
                        if count > 0 {
                            assert(live(t1, gmax) && live(t1, gmin) && live(t1, glast) && live(
                                t1,
                                gfirst,
                            ));
                            assert(first_max_size(t1, gmax));
                            assert(first_min_size(t1, gmin));
                            assert(first_last_expiry(self@, t1, lt, glast));
                            assert(first_soonest_expiry(self@, t1, lt, gfirst));
                        }
                    }
                },
                Some(sz) => {
                    let ghost t0 = sizes@.take(i as int);
                    let ghost t1 = sizes@.take(i + 1);
                    assert(live(t1, i as int));
                    assert(t1[i as int]->0 == sz);
                    let expiry = Cacher::get_expire_time(&self.file_map[i], lifetime);
                    assert(expiry == clamped_expiry(self@[i as int], lt));
                    let ghost m_old: u64 = max_pair.1;
                    let ghost mn_old: u64 = min_pair.1;
                    let ghost l_old: u64 = last_pair.1;
                    let ghost f_old: u64 = first_pair.1;
                    if count == 0 {
                        proof {
                            assert(forall|j: int| !live(t0, j));
                            assert forall|j: int| j < i implies !live(t1, j) by {
                                if live(t1, j) {
                                    assert(live(t0, j));
                                }
                            }
                        }
                        max_pair = (self.file_map[i].path.clone(), sz);
                        min_pair = (self.file_map[i].path.clone(), sz);
                        first_pair = (self.file_map[i].path.clone(), expiry);
                        last_pair = (self.file_map[i].path.clone(), expiry);
                        proof {
                            gmax = i as int;
                            gmin = i as int;
                            gfirst = i as int;
                            glast = i as int;
                            assert(first_max_size(t1, gmax));
                            assert(first_min_size(t1, gmin));
                            assert(first_last_expiry(self@, t1, lt, glast));
                            assert(first_soonest_expiry(self@, t1, lt, gfirst));
                        }
                    } else {
                        if sz > max_pair.1 {
                            max_pair = (self.file_map[i].path.clone(), sz);
                            proof {
                                gmax = i as int;
                                assert forall|j: int| live(t1, j) implies (t1[j]->0) <= (t1[i as int]->0) by {
                                    if j < i {
                                        assert(live(t0, j));
                                        assert(t0[j]->0 <= m_old);
                                        assert(t1[j] == t0[j]);
                                    }
                                }
                                assert forall|j: int| j < i && live(t1, j) implies (t1[j]->0) < (t1[i as int]->0) by {
                                    assert(live(t0, j));
                                    assert(t0[j]->0 <= m_old);
                                    assert(t1[j] == t0[j]);
                                }
                                assert(first_max_size(t1, gmax));
                            }
                        } else {
                            proof {
                                assert(live(t0, gmax) && t1[gmax] == t0[gmax]);
                                assert forall|j: int| live(t1, j) implies (t1[j]->0) <= (t1[gmax]
                                    ->0) by {
                                    if j < i {
                                        assert(live(t0, j));
                                        assert(t1[j] == t0[j]);
                                    }
                                }
                                assert forall|j: int| j < gmax && live(t1, j) implies (t1[j]->0) < (t1[gmax]->0) by {
                                    assert(live(t0, j));
                                    assert(t1[j] == t0[j]);
                                }
                                assert(first_max_size(t1, gmax));
                            }
                        }
                        if sz < min_pair.1 {
                            min_pair = (self.file_map[i].path.clone(), sz);
                            proof {
                                gmin = i as int;
                                assert forall|j: int| live(t1, j) implies (t1[j]->0) >= (t1[i as int]->0) by {
                                    if j < i {
                                        assert(live(t0, j));
                                        assert(t0[j]->0 >= mn_old);
                                        assert(t1[j] == t0[j]);
                                    }
                                }
                                assert forall|j: int| j < i && live(t1, j) implies (t1[j]->0) > (t1[i as int]->0) by {
                                    assert(live(t0, j));
                                    assert(t0[j]->0 >= mn_old);
                                    assert(t1[j] == t0[j]);
                                }
                                assert(first_min_size(t1, gmin));
                            }
                        } else {
                            proof {
                                assert(live(t0, gmin) && t1[gmin] == t0[gmin]);
                                assert forall|j: int| live(t1, j) implies (t1[j]->0) >= (t1[gmin]
                                    ->0) by {
                                    if j < i {
                                        assert(live(t0, j));
                                        assert(t1[j] == t0[j]);
                                    }
                                }
                                assert forall|j: int| j < gmin && live(t1, j) implies (t1[j]->0) > (t1[gmin]->0) by {
                                    assert(live(t0, j));
                                    assert(t1[j] == t0[j]);
                                }
                                assert(first_min_size(t1, gmin));
                            }
                        }
                        if expiry > last_pair.1 {
                            last_pair = (self.file_map[i].path.clone(), expiry);
                            proof {
                                glast = i as int;
                                assert forall|j: int|
                                    live(t1, j) && j < self@.len() implies clamped_expiry(
                                    #[trigger] self@[j],
                                    lt,
                                ) <= clamped_expiry(self@[i as int], lt) by {
                                    if j < i {
                                        assert(live(t0, j));
                                        assert(clamped_expiry(self@[j], lt) <= l_old);
                                    }
                                }
                                assert forall|j: int| j < i && live(t1, j) implies clamped_expiry(
                                    #[trigger] self@[j],
                                    lt,
                                ) < clamped_expiry(self@[i as int], lt) by {
                                    assert(live(t0, j));
                                    assert(clamped_expiry(self@[j], lt) <= l_old);
                                }
                                assert(first_last_expiry(self@, t1, lt, glast));
                            }
                        } else {
                            proof {
                                assert(live(t0, glast) && t1[glast] == t0[glast]);
                                assert forall|j: int|
                                    live(t1, j) && j < self@.len() implies clamped_expiry(
                                    #[trigger] self@[j],
                                    lt,
                                ) <= clamped_expiry(self@[glast], lt) by {
                                    if j < i {
                                        assert(live(t0, j));
                                    }
                                }
                                assert forall|j: int|
                                    j < glast && live(t1, j) implies clamped_expiry(
                                    #[trigger] self@[j],
                                    lt,
                                ) < clamped_expiry(self@[glast], lt) by {
                                    assert(live(t0, j));
                                }
                                assert(first_last_expiry(self@, t1, lt, glast));
                            }
                        }
                        if expiry < first_pair.1 {
                            first_pair = (self.file_map[i].path.clone(), expiry);
                            proof {
                                gfirst = i as int;
                                assert forall|j: int|
                                    live(t1, j) && j < self@.len() implies clamped_expiry(
                                    #[trigger] self@[j],
                                    lt,
                                ) >= clamped_expiry(self@[i as int], lt) by {
                                    if j < i {
                                        assert(live(t0, j));
                                        assert(clamped_expiry(self@[j], lt) >= f_old);
                                    }
                                }
                                assert forall|j: int| j < i && live(t1, j) implies clamped_expiry(
                                    #[trigger] self@[j],
                                    lt,
                                ) > clamped_expiry(self@[i as int], lt) by {
                                    assert(live(t0, j));
                                    assert(clamped_expiry(self@[j], lt) >= f_old);
                                }
                                assert(first_soonest_expiry(self@, t1, lt, gfirst));
                            }
                        } else {
                            proof {
                                assert(live(t0, gfirst) && t1[gfirst] == t0[gfirst]);
                                assert forall|j: int|
                                    live(t1, j) && j < self@.len() implies clamped_expiry(
                                    #[trigger] self@[j],
                                    lt,
                                ) >= clamped_expiry(self@[gfirst], lt) by {
                                    if j < i {
                                        assert(live(t0, j));
                                    }
                                }
                                assert forall|j: int|
                                    j < gfirst && live(t1, j) implies clamped_expiry(
                                    #[trigger] self@[j],
                                    lt,
                                ) > clamped_expiry(self@[gfirst], lt) by {
                                    assert(live(t0, j));
                                }
                                assert(first_soonest_expiry(self@, t1, lt, gfirst));
                            }
                        }
                    }
                    count = count + 1;
                    total = total.saturating_add(sz);
                },
            }
            i = i + 1;
        }
        proof {
            assert(sizes@.take(n as int) =~= sizes@);
        }
        Stats {
            number_of_cached_files: count,
            max_file_size: max_pair,
            min_file_size: min_pair,
            total_size: total,
            first_to_expire: first_pair,
            last_to_expire: last_pair,
        }
    }

    /// The recorded paths, in index order; the order `stats` expects its
    /// size listing in.
    pub fn record_paths(&self) -> (r: Vec<String>)
        ensures
            r.deep_view() == self@.map_values(|rec: RecordV| rec.path),
    {
        let ghost path_of = |rec: RecordV| rec.path;
        let n = self.file_map.len();
        let mut r: Vec<String> = Vec::new();
        let mut i: usize = 0;
        while i < n
            invariant
                0 <= i <= n,
                n == self@.len(),
                path_of == (|rec: RecordV| rec.path),
                r.deep_view() == self@.take(i as int).map_values(path_of),
            decreases n - i,
        {
            let ghost r_pre = r.deep_view();
            r.push(self.file_map[i].path.clone());
            i = i + 1;
            proof {
                let dv = r.deep_view();
                let expect = self@.take(i as int).map_values(path_of);
                assert(r_pre.len() == i - 1);
                assert(dv.len() == r_pre.len() + 1);
                assert forall|j: int| 0 <= j < dv.len() implies dv[j] == expect[j] by {
                    if j < i - 1 {
                        assert(dv[j] == r_pre[j]);
                        assert(r_pre[j] == self@.take(i - 1).map_values(path_of)[j]);
                    }
                }
                assert(dv =~~= expect);
            }
        }
        assert(self@.take(n as int) =~= self@);
        r
    }

    /// The record for `url`, when one exists; for reading its fields.
    pub fn lookup(&self, url: &str) -> (r: Option<&CachedFile>)
        requires
            self.wf(),
        ensures
            match r {
                Some(rec) => has_url(self@, url@) && rec@ == record_for(self@, url@),
                None => !has_url(self@, url@),
            },
    {
        let n = self.file_map.len();
        let mut i: usize = 0;
        while i < n
            invariant
                0 <= i <= n,
                n == self@.len(),
                self.wf(),
                forall|j: int| 0 <= j < i ==> (#[trigger] self@[j]).url != url@,
            decreases n - i,
        {
            if str_eq(self.file_map[i].url.as_str(), url) {
                proof {
                    assert(self@[i as int].url == url@);
                    assert(has_url(self@, url@));
                    let j = index_of_url(self@, url@);
                    assert(0 <= j < self@.len() && self@[j].url == url@);
                    if j != i as int {
                        assert(false);
                    }
                }
                return Some(&self.file_map[i]);
            }
            i = i + 1;
        }
        None
    }

    /// The expiry timestamp reported for a record: the exact expiry instant,
    /// clamped into `u64` when the arithmetic leaves it.
    pub fn get_expire_time(cached_file: &CachedFile, file_lifetime: u64) -> (r: u64)
        ensures
            r == clamped_expiry(cached_file@, file_lifetime),
    {
        let v: i128 = match cached_file.expire_time {
            Some(e) => e as i128,
            None => cached_file.cached_time as i128 + file_lifetime as i128
                + cached_file.random as i128,
        };
        if v < 0 {
            0
        } else if v > u64::MAX as i128 {
            u64::MAX
        } else {
            v as u64
        }
    }
}

/// Whether position `i` of the size listing names a live regular file.
pub open spec fn live(sizes: Seq<Option<u64>>, i: int) -> bool {
    0 <= i < sizes.len() && sizes[i] is Some
}

/// How many positions are live.
pub open spec fn count_live(sizes: Seq<Option<u64>>) -> int
    decreases sizes.len(),
{
    if sizes.len() == 0 {
        0
    } else {
        count_live(sizes.drop_last()) + if sizes.last() is Some {
            1int
        } else {
            0int
        }
    }
}

/// The exact sum of the live sizes, unbounded.
pub open spec fn total_live(sizes: Seq<Option<u64>>) -> int
    decreases sizes.len(),
{
    if sizes.len() == 0 {
        0
    } else {
        total_live(sizes.drop_last()) + match sizes.last() {
            Some(s) => s as int,
            None => 0,
        }
    }
}

proof fn lemma_count_live_facts(sizes: Seq<Option<u64>>)
    ensures
        0 <= count_live(sizes) <= sizes.len(),
        0 <= total_live(sizes),
        (count_live(sizes) == 0 <==> forall|j: int| !live(sizes, j)),
    decreases sizes.len(),
{
    if sizes.len() > 0 {
        let pre = sizes.drop_last();
        lemma_count_live_facts(pre);
        assert(forall|j: int| 0 <= j < pre.len() ==> pre[j] == #[trigger] sizes[j]);
        if count_live(sizes) == 0 {
            assert forall|j: int| !live(sizes, j) by {
                if 0 <= j < sizes.len() - 1 {
                    assert(!live(pre, j));
                }
            }
        }
        if forall|j: int| !live(sizes, j) {
            assert forall|j: int| !live(pre, j) by {
                if live(pre, j) {
                    assert(live(sizes, j));
                }
            }
            assert(count_live(pre) == 0);
            assert(!live(sizes, sizes.len() - 1));
        }
        if sizes.last() is Some {
            assert(live(sizes, sizes.len() - 1));
        }
    }
}

proof fn lemma_count_live_step(sizes: Seq<Option<u64>>, i: int)
    requires
        0 <= i < sizes.len(),
    ensures
        count_live(sizes.take(i + 1)) == count_live(sizes.take(i)) + if sizes[i] is Some {
            1int
        } else {
            0int
        },
        total_live(sizes.take(i + 1)) == total_live(sizes.take(i)) + match sizes[i] {
            Some(s) => s as int,
            None => 0,
        },
{
    let t = sizes.take(i + 1);
    assert(t.drop_last() =~= sizes.take(i));
    assert(t.last() == sizes[i]);
}

/// Position `i` holds the maximum live size, and is the first position to
/// hold it.
pub open spec fn first_max_size(sizes: Seq<Option<u64>>, i: int) -> bool {
    &&& live(sizes, i)
    &&& forall|j: int| live(sizes, j) ==> (sizes[j]->0) <= (sizes[i]->0)
    &&& forall|j: int| j < i && live(sizes, j) ==> (sizes[j]->0) < (sizes[i]->0)
}

/// Position `i` holds the minimum live size, and is the first position to
/// hold it.
pub open spec fn first_min_size(sizes: Seq<Option<u64>>, i: int) -> bool {
    &&& live(sizes, i)
    &&& forall|j: int| live(sizes, j) ==> (sizes[j]->0) >= (sizes[i]->0)
    &&& forall|j: int| j < i && live(sizes, j) ==> (sizes[j]->0) > (sizes[i]->0)
}

/// Position `i` is the first live position with the latest expiry.
pub open spec fn first_last_expiry(
    rs: Seq<RecordV>,
    sizes: Seq<Option<u64>>,
    lifetime: u64,
    i: int,
) -> bool {
    &&& live(sizes, i)
    &&& 0 <= i < rs.len()
    &&& forall|j: int|
        live(sizes, j) && j < rs.len() ==> clamped_expiry(#[trigger] rs[j], lifetime)
            <= clamped_expiry(rs[i], lifetime)
    &&& forall|j: int|
        j < i && live(sizes, j) ==> clamped_expiry(#[trigger] rs[j], lifetime) < clamped_expiry(
            rs[i],
            lifetime,
        )
}

/// Position `i` is the first live position with the soonest expiry.
pub open spec fn first_soonest_expiry(
    rs: Seq<RecordV>,
    sizes: Seq<Option<u64>>,
    lifetime: u64,
    i: int,
) -> bool {
    &&& live(sizes, i)
    &&& 0 <= i < rs.len()
    &&& forall|j: int|
        live(sizes, j) && j < rs.len() ==> clamped_expiry(#[trigger] rs[j], lifetime)
            >= clamped_expiry(rs[i], lifetime)
    &&& forall|j: int|
        j < i && live(sizes, j) ==> clamped_expiry(#[trigger] rs[j], lifetime) > clamped_expiry(
            rs[i],
            lifetime,
        )
}

/// Aggregate facts over the records whose files are live on disk.  The
/// extrema carry the path of the record they speak of; with no live file
/// they keep their sentinel values.
pub struct Stats {
    pub number_of_cached_files: i32,
    pub max_file_size: (String, u64),
    pub min_file_size: (String, u64),
    pub total_size: u64,
    pub first_to_expire: (String, u64),
    pub last_to_expire: (String, u64),
}

/// Persisting and reloading reproduces the index: the artifact `save`
/// returns is decoded by construction — so by `new`'s contract — to exactly
/// the records it was made from, for every well-formed engine whose strings
/// a real machine can hold.
pub proof fn lemma_save_load_roundtrip(c: Cacher)
    requires
        c.wf(),
        crate::codec::recs_bounded(c@),
    ensures
        spec_decode(enc_index(c@)) == Some(c@),
{
    crate::codec::lemma_codec_roundtrip(c@);
}

/// One unfolding step of `filter` along a prefix: filtering one more
/// element keeps it exactly when the predicate holds of it.
proof fn lemma_filter_step(s: Seq<RecordV>, i: int, pred: spec_fn(RecordV) -> bool)
    requires
        0 <= i < s.len(),
    ensures
        s.take(i + 1).filter(pred) == if pred(s[i]) {
            s.take(i).filter(pred).push(s[i])
        } else {
            s.take(i).filter(pred)
        },
{
    reveal(Seq::filter);
    let t = s.take(i + 1);
    assert(t.len() == i + 1);
    assert(t.drop_last() =~= s.take(i));
    assert(t.last() == s[i]);
}

/// Every element of a filtered sequence occurs in the sequence.
proof fn lemma_filter_subset(rs: Seq<RecordV>, pred: spec_fn(RecordV) -> bool)
    ensures
        forall|i: int| 0 <= i < rs.filter(pred).len() ==> rs.contains(#[trigger] rs.filter(pred)[i]),
    decreases rs.len(),
{
    reveal(Seq::filter);
    if rs.len() > 0 {
        let pre = rs.drop_last();
        lemma_filter_subset(pre, pred);
        let f = rs.filter(pred);
        let fp = pre.filter(pred);
        assert forall|i: int| 0 <= i < f.len() implies rs.contains(f[i]) by {
            if pred(rs.last()) && i == f.len() - 1 {
                assert(f[i] == rs.last());
                assert(rs[rs.len() - 1] == rs.last());
            } else {
                assert(f[i] == fp[i]);
                assert(pre.contains(fp[i]));
                let j = choose|j: int| 0 <= j < pre.len() && pre[j] == fp[i];
                assert(rs[j] == fp[i]);
            }
        }
    }
}

/// Filtering keeps URLs pairwise distinct.
proof fn lemma_filter_distinct(rs: Seq<RecordV>, pred: spec_fn(RecordV) -> bool)
    requires
        urls_distinct(rs),
    ensures
        urls_distinct(rs.filter(pred)),
    decreases rs.len(),
{
    reveal(Seq::filter);
    if rs.len() > 0 {
        let pre = rs.drop_last();
        assert(urls_distinct(pre)) by {
            assert(forall|a: int| 0 <= a < pre.len() ==> pre[a] == #[trigger] rs[a]);
        }
        lemma_filter_distinct(pre, pred);
        lemma_filter_subset(pre, pred);
        let f = rs.filter(pred);
        let fp = pre.filter(pred);
        if pred(rs.last()) {
            assert(f == fp.push(rs.last()));
            assert forall|a: int, b: int| 0 <= a < b < f.len() implies (#[trigger] f[a]).url != (
            #[trigger] f[b]).url by {
                if b == f.len() - 1 {
                    assert(f[a] == fp[a]);
                    assert(pre.contains(fp[a]));
                    let j = choose|j: int| 0 <= j < pre.len() && pre[j] == fp[a];
                    assert(rs[j] == f[a]);
                    assert(f[b] == rs[rs.len() - 1]);
                } else {
                    assert(f[a] == fp[a] && f[b] == fp[b]);
                }
            }
        }
    }
}

}
