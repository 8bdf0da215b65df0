use vstd::prelude::*;

verus! {

/// Mathematical view of one cache record.
pub ghost struct RecordV {
    pub url: Seq<char>,
    pub path: Seq<char>,
    pub cached_time: u64,
    pub random: i32,
    pub expire_time: Option<u64>,
}

/// One entry of the cache index: where the bytes fetched for `url` were
/// stored, and the data deciding when the copy stops being valid.
pub struct CachedFile {
    /// The URL the bytes were fetched from; unique key of the index.
    pub url: String,
    /// Filesystem path of the stored bytes.
    pub path: String,
    /// Unix timestamp of the moment the record was created.
    pub cached_time: u64,
    /// Random offset in seconds, drawn once at creation and added to the
    /// base lifetime, so that records cached together expire apart.
    pub random: i32,
    /// Absolute Unix timestamp overriding the computed expiry, when present.
    pub expire_time: Option<u64>,
}

impl View for CachedFile {
    type V = RecordV;

    open spec fn view(&self) -> RecordV {
        RecordV {
            url: self.url@,
            path: self.path@,
            cached_time: self.cached_time,
            random: self.random,
            expire_time: self.expire_time,
        }
    }
}

impl DeepView for CachedFile {
    type V = RecordV;

    open spec fn deep_view(&self) -> RecordV {
        self@
    }
}

impl Clone for CachedFile {
    fn clone(&self) -> (r: Self)
        ensures
            r@ == self@,
    {
        CachedFile {
            url: self.url.clone(),
            path: self.path.clone(),
            cached_time: self.cached_time,
            random: self.random,
            expire_time: self.expire_time,
        }
    }
}

}
