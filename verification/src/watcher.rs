//! Detection of external edits of the open file: content hashing, waiting
//! out in-flight writes, periodic re-verification and self-write
//! suppression. Reading the disk is the caller's part; these functions
//! decide from what was read.
use vstd::prelude::*;
use crate::text::{chars_of, trim, trim_chars};
use std::path::PathBuf;
use std::time::Instant;
use std::hash::{Hash, Hasher};
use vstd::string::StringSliceAdditionalSpecFns;

verus! {

/// A filesystem path (carried, never inspected here).
#[verifier::external_type_specification]
#[verifier::external_body]
pub struct ExPathBuf(PathBuf);

/// A monotonic clock reading.
#[verifier::external_type_specification]
#[verifier::external_body]
pub struct ExInstant(Instant);

/// `std::time::Instant::now()`: the current time. Nothing is claimed of
/// the value.
#[verifier::external_body]
fn now() -> Instant {
    Instant::now()
}

/// `Instant::elapsed` in whole milliseconds (`Duration::as_millis`).
/// Nothing is claimed of the value: it depends on the clock.
#[verifier::external_body]
fn elapsed_ms(since: &Instant) -> u128 {
    since.elapsed().as_millis()
}

/// Name for the result of hashing a string with std's `DefaultHasher`
/// (`DefaultHasher::new()`, `str::hash`, `finish`).
pub uninterp spec fn default_hash(data: Seq<char>) -> u64;

/// `DefaultHasher` over the string: the hash is a function of the text
/// alone (`DefaultHasher::new()` is not randomly seeded).
#[verifier::external_body]
pub fn compute_hash(data: &str) -> (h: u64)
    ensures
        h == default_hash(data@),
{
    let mut hasher = std::collections::hash_map::DefaultHasher::new();
    data.hash(&mut hasher);
    hasher.finish()
}

/// What the file system reports of the file: modification time
/// (nanoseconds from the Unix epoch, if known) and size in bytes.
pub struct FileMeta {
    pub modified: Option<i128>,
    pub len: u64,
}

/// Default periodic verification interval (ms).
pub const DEFAULT_VERIFY_MS: u64 = 1000;

/// Watcher state. Durations are in milliseconds.
pub struct FileWatcher {
    pub file_path: PathBuf,
    pub last_modified: Option<i128>,
    pub last_file_size: u64,
    pub last_content_hash: u64,
    pub has_external_change: bool,
    pub last_check_time: Instant,
    pub debounce_duration: u64,
    pub pending_invalid_last_change: Option<Instant>,
    pub pending_invalid_last_hash: u64,
    /// Content hash of the last invalid file already warned about.
    pub warned_invalid_hash: u64,
    pub partial_write_timeout: u64,
    pub last_full_verify: Instant,
    pub periodic_verify_interval: u64,
}

/// The adaptive verification interval: an explicit setting other than the
/// default wins; otherwise 1 s below 1 MiB, 3 s below 10 MiB, 5 s below
/// 30 MiB and 10 s above.
pub open spec fn spec_verify_interval(configured: u64, size: u64) -> u64 {
    if configured != DEFAULT_VERIFY_MS {
        configured
    } else if size < 1024 * 1024 {
        1000
    } else if size < 10 * 1024 * 1024 {
        3000
    } else if size < 30 * 1024 * 1024 {
        5000
    } else {
        10000
    }
}

/// Whether the metadata hints at a modification.
pub open spec fn spec_metadata_changed(last: Option<i128>, last_size: u64, meta: FileMeta) -> bool {
    match (last, meta.modified) {
        (Some(l), Some(c)) => c > l || meta.len != last_size,
        (None, Some(_)) => true,
        _ => meta.len != last_size,
    }
}

/// Whether a check must read the file: the metadata hints at a change, the
/// size differs, no content hash is known yet, or the periodic verification
/// interval has passed (`since` ms after the last full verification).
pub open spec fn check_due(w: FileWatcher, meta: FileMeta, since: int) -> bool {
    spec_metadata_changed(w.last_modified, w.last_file_size, meta)
        || meta.len != w.last_file_size
        || w.last_content_hash == 0
        || ({
            let interval = spec_verify_interval(w.periodic_verify_interval, w.last_file_size);
            interval > 0 && since >= interval
        })
}

/// Whether `pat` occurs in `s` at position `i`.
pub open spec fn occurs_at(s: Seq<char>, pat: Seq<char>, i: int) -> bool {
    0 <= i && i + pat.len() <= s.len() && s.subrange(i, i + pat.len()) == pat
}

pub open spec fn contains_seq(s: Seq<char>, pat: Seq<char>) -> bool {
    exists|i: int| occurs_at(s, pat, i)
}

/// A complete SVG: it holds `</svg>`, or it is a single self-closing root
/// `<svg ... />` with no other `>`.
pub open spec fn is_complete_svg(t: Seq<char>) -> bool {
    contains_seq(t, seq!['<', '/', 's', 'v', 'g', '>'])
    || (occurs_at(t, seq!['<', 's', 'v', 'g'], 0)
        && occurs_at(t, seq!['/', '>'], t.len() - 2)
        && !t.subrange(4, t.len() - 2).contains('>'))
}

fn matches_at(s: &Vec<char>, pat: &[char], i: usize) -> (r: bool)
    ensures
        r == occurs_at(s@, pat@, i as int),
{
    if i > s.len() || pat.len() > s.len() - i {
        return false;
    }
    let m = pat.len();
    let mut j: usize = 0;
    while j < m
        invariant
            j <= m,
            m == pat@.len(),
            i + m <= s@.len(),
            s@.len() == s.len(),
            forall|q: int| 0 <= q < j ==> s@[i + q] == pat@[q],
        decreases m - j,
    {
        if s[i + j] != pat[j] {
            assert(s@.subrange(i as int, i + m)[j as int] != pat@[j as int]);
            return false;
        }
        j += 1;
    }
    assert(s@.subrange(i as int, i + m) =~= pat@);
    true
}

fn find_seq(s: &Vec<char>, pat: &[char]) -> (r: bool)
    requires
        pat@.len() > 0,
    ensures
        r == contains_seq(s@, pat@),
{
    let n = s.len();
    let m = pat.len();
    if m > n {
        assert forall|q: int| !occurs_at(s@, pat@, q) by {}
        return false;
    }
    let mut i: usize = 0;
    while i <= n - m
        invariant
            0 < m <= n,
            n == s@.len(),
            m == pat@.len(),
            forall|q: int| 0 <= q < i ==> !occurs_at(s@, pat@, q),
        decreases n - m + 1 - i,
    {
        if matches_at(s, pat, i) {
            return true;
        }
        i += 1;
    }
    assert forall|q: int| !occurs_at(s@, pat@, q) by {}
    false
}

fn complete_svg(t: &Vec<char>) -> (r: bool)
    ensures
        r == is_complete_svg(t@),
{
    let close = vec!['<', '/', 's', 'v', 'g', '>'];
    let open = vec!['<', 's', 'v', 'g'];
    let end = vec!['/', '>'];
    assert(close@ =~= seq!['<', '/', 's', 'v', 'g', '>']);
    assert(open@ =~= seq!['<', 's', 'v', 'g']);
    assert(end@ =~= seq!['/', '>']);
    if find_seq(t, close.as_slice()) {
        return true;
    }
    let n = t.len();
    if n < 2 {
        return false;
    }
    if !matches_at(t, open.as_slice(), 0) || !matches_at(t, end.as_slice(), n - 2) {
        return false;
    }
    assert(n >= 6) by {
        assert(t@[3] == 'g');
        assert(t@[n - 1] == '>');
        assert(t@[n - 2] == '/');
    }
    let mut k: usize = 4;
    while k < n - 2
        invariant
            4 <= k <= n - 2,
            n == t@.len(),
            forall|q: int| 4 <= q < k ==> t@[q] != '>',
            !contains_seq(t@, seq!['<', '/', 's', 'v', 'g', '>']),
        decreases n - 2 - k,
    {
        if t[k] == '>' {
            assert(t@.subrange(4, n - 2)[k - 4] == '>');
            assert(t@.subrange(4, n - 2).contains('>'));
            return false;
        }
        k += 1;
    }
    let ghost mid = t@.subrange(4, n - 2);
    assert forall|q: int| 0 <= q < mid.len() implies #[trigger] mid[q] != '>' by {
        assert(mid[q] == t@[q + 4]);
    }
    true
}

impl FileWatcher {
    /// A watcher with the default timings. (Reading the file's current state
    /// is the caller's `update_timestamp`.)
    pub fn new(path: PathBuf) -> (w: FileWatcher)
        ensures
            w.file_path == path,
            w.last_modified is None,
            w.last_file_size == 0,
            w.last_content_hash == 0,
            !w.has_external_change,
            w.debounce_duration == 50,
            w.pending_invalid_last_change is None,
            w.pending_invalid_last_hash == 0,
            w.warned_invalid_hash == 0,
            w.partial_write_timeout == 500,
            w.periodic_verify_interval == DEFAULT_VERIFY_MS,
    {
        FileWatcher {
            file_path: path,
            last_modified: None,
            last_file_size: 0,
            last_content_hash: 0,
            has_external_change: false,
            last_check_time: now(),
            debounce_duration: 50,
            pending_invalid_last_change: None,
            pending_invalid_last_hash: 0,
            warned_invalid_hash: 0,
            partial_write_timeout: 500,
            last_full_verify: now(),
            periodic_verify_interval: DEFAULT_VERIFY_MS,
        }
    }

    pub fn set_partial_write_timeout(&mut self, timeout_ms: u64)
        ensures
            *final(self) == (FileWatcher { partial_write_timeout: timeout_ms, ..*old(self) }),
    {
        self.partial_write_timeout = timeout_ms;
    }

    pub fn set_periodic_verify_interval(&mut self, interval_ms: u64)
        ensures
            *final(self) == (FileWatcher { periodic_verify_interval: interval_ms, ..*old(self) }),
    {
        self.periodic_verify_interval = interval_ms;
    }

    /// The adaptive periodic verification interval (ms).
    pub fn effective_verify_interval(&self) -> (r: u64)
        ensures
            r == spec_verify_interval(self.periodic_verify_interval, self.last_file_size),
    {
        if self.periodic_verify_interval != DEFAULT_VERIFY_MS {
            return self.periodic_verify_interval;
        }
        if self.last_file_size < 1024 * 1024 {
            1000
        } else if self.last_file_size < 10 * 1024 * 1024 {
            3000
        } else if self.last_file_size < 30 * 1024 * 1024 {
            5000
        } else {
            10000
        }
    }

    /// Whether the file content must be read and hashed now, given the
    /// metadata and the time since the last full verification.
    pub fn content_check_due(&self, meta: &FileMeta, since_verify_ms: u128) -> (r: bool)
        ensures
            r == check_due(*self, *meta, since_verify_ms as int),
    {
        let metadata_changed = match (self.last_modified, meta.modified) {
            (Some(l), Some(c)) => c > l || meta.len != self.last_file_size,
            (None, Some(_)) => true,
            _ => meta.len != self.last_file_size,
        };
        let interval = self.effective_verify_interval();
        let periodic = interval > 0 && since_verify_ms >= interval as u128;
        metadata_changed || meta.len != self.last_file_size || self.last_content_hash == 0 || periodic
    }

    /// `content_check_due` with the clock read now: the decision holds for
    /// some elapsed time, which is whatever the clock reports.
    pub fn should_read(&self, meta: &FileMeta) -> (r: bool)
        ensures
            exists|since: int| #[trigger] check_due(*self, *meta, since) == r,
    {
        let since = elapsed_ms(&self.last_full_verify);
        let r = self.content_check_due(meta, since);
        assert(check_due(*self, *meta, since as int) == r);
        r
    }
}


/// Whether an observed text is held back as a write still in flight:
/// it is not a complete SVG, and either no incomplete text was pending, or
/// the pending one had another hash, or it has not been idle for the
/// timeout yet.
pub open spec fn deferred(w: FileWatcher, complete: bool, h: u64, idle: int) -> bool {
    !complete && (w.pending_invalid_last_change is None || h != w.pending_invalid_last_hash
        || idle < w.partial_write_timeout)
}

/// Whether the idle clock (re)starts at this observation.
pub open spec fn restarts(w: FileWatcher, complete: bool, h: u64) -> bool {
    !complete && (w.pending_invalid_last_change is None || h != w.pending_invalid_last_hash)
}

/// The watcher after reading `content` (whose hash is `h`) with the file
/// metadata `meta`, when the pending incomplete text has been idle for
/// `idle` ms and the clock reads `now`; and whether the content is
/// reported as an external change. A reported text becomes the known
/// content, so that only changes since the last check are reported.
pub open spec fn after_read(w: FileWatcher, meta: FileMeta, content: Seq<char>, h: u64, idle: int, now: Instant) -> (FileWatcher, bool) {
    let complete = is_complete_svg(trim(content));
    let w1 = if complete {
        FileWatcher { pending_invalid_last_change: None, pending_invalid_last_hash: 0, ..w }
    } else if restarts(w, complete, h) {
        FileWatcher { pending_invalid_last_change: Some(now), pending_invalid_last_hash: h, ..w }
    } else {
        w
    };
    if deferred(w, complete, h, idle) || h == w.last_content_hash {
        (w1, false)
    } else {
        (FileWatcher {
            last_modified: meta.modified,
            last_file_size: meta.len,
            last_content_hash: h,
            has_external_change: true,
            ..w1
        }, true)
    }
}

/// `w` with its last full verification at `t`.
pub open spec fn with_verify_time(w: FileWatcher, t: Instant) -> FileWatcher {
    FileWatcher { last_full_verify: t, ..w }
}

/// The outcome of one check of the file, as the watcher `w2` after it and
/// whether a change was reported, when the check was `due`: a check that
/// is not due changes nothing; one that is due records the time of the
/// full verification and, when the file could be read, decides on its
/// text as `after_read` does, for the idle time and clock then reported.
pub open spec fn check_result(w: FileWatcher, meta: FileMeta, content: Option<String>, due: bool, w2: FileWatcher, reported: bool) -> bool {
    if !due {
        w2 == w && !reported
    } else {
        match content {
            None => w2 == with_verify_time(w, w2.last_full_verify) && !reported,
            Some(c) => exists|idle: int, t: Instant|
                #[trigger] after_read(with_verify_time(w, w2.last_full_verify), meta, c@, default_hash(c@), idle, t) == (w2, reported),
        }
    }
}

impl FileWatcher {
    /// The decision on a text read from disk, given its hash, how long the
    /// pending incomplete text has been idle (ms) and the current clock.
    pub fn observe_content(&mut self, meta: &FileMeta, content: String, hash: u64, idle_ms: u128, now: Instant) -> (r: Option<String>)
        ensures
            (*final(self), r is Some) == after_read(*old(self), *meta, content@, hash, idle_ms as int, now),
            r is Some ==> r == Some(content),
    {
        let chars = chars_of(content.as_str());
        let t = trim_chars(&chars);
        let complete = complete_svg(&t);
        let ghost w = *self;
        if !complete {
            let restart = match self.pending_invalid_last_change {
                None => true,
                Some(_) => hash != self.pending_invalid_last_hash,
            };
            if restart {
                self.pending_invalid_last_change = Some(now);
                self.pending_invalid_last_hash = hash;
                return None;
            }
            if idle_ms < self.partial_write_timeout as u128 {
                return None;
            }
        } else {
            self.pending_invalid_last_change = None;
            self.pending_invalid_last_hash = 0;
        }
        if hash != self.last_content_hash {
            self.last_modified = meta.modified;
            self.last_file_size = meta.len;
            self.last_content_hash = hash;
            self.has_external_change = true;
            return Some(content);
        }
        None
    }

    /// Reads the clock and the idle time of the pending text, hashes
    /// `content` and decides on it (`observe_content`). The clock readings
    /// are whatever the system reports.
    pub fn inspect_content(&mut self, meta: &FileMeta, content: String) -> (r: Option<String>)
        ensures
            exists|idle: int, t: Instant| #![trigger after_read(*old(self), *meta, content@, default_hash(content@), idle, t)]
                (*final(self), r is Some) == after_read(*old(self), *meta, content@, default_hash(content@), idle, t),
            r is Some ==> r == Some(content),
    {
        let hash = compute_hash(content.as_str());
        let idle = match &self.pending_invalid_last_change {
            Some(since) => elapsed_ms(since),
            None => 0,
        };
        let t = now();
        let ghost c = content@;
        let ghost w = *self;
        let r = self.observe_content(meta, content, hash, idle, t);
        assert((*self, r is Some) == after_read(w, *meta, c, default_hash(c), idle as int, t));
        r
    }

    /// Decides whether the file must be read now, and if so records the
    /// time of this full verification.
    pub fn begin_check(&mut self, meta: &FileMeta) -> (due: bool)
        ensures
            exists|since: int| #[trigger] check_due(*old(self), *meta, since) == due,
            due ==> *final(self) == (FileWatcher { last_full_verify: final(self).last_full_verify, ..*old(self) }),
            !due ==> *final(self) == *old(self),
    {
        let due = self.should_read(meta);
        if due {
            self.last_full_verify = now();
        }
        due
    }

    /// One check of the file: `meta` is what the file system reports and
    /// `content` the text read from it (`None` if it could not be read).
    /// Returns the text if it is a verified external change.
    pub fn check_for_external_content(&mut self, meta: &FileMeta, content: Option<String>) -> (r: Option<String>)
        ensures
            r is Some ==> r == content && final(self).has_external_change,
            r is None ==> final(self).has_external_change == old(self).has_external_change,
            (content matches Some(c) && (spec_metadata_changed(old(self).last_modified, old(self).last_file_size, *meta)
                || meta.len != old(self).last_file_size || old(self).last_content_hash == 0))
                ==> exists|idle: int, t: Instant|
                    #![trigger after_read(with_verify_time(*old(self), final(self).last_full_verify), *meta, content->0@, default_hash(content->0@), idle, t)]
                    (*final(self), r is Some) == after_read(with_verify_time(*old(self), final(self).last_full_verify), *meta,
                        content->0@, default_hash(content->0@), idle, t),
            exists|since: int| check_result(*old(self), *meta, content, #[trigger] check_due(*old(self), *meta, since), *final(self), r is Some),
    {
        let ghost w0 = *self;
        let ghost c0 = content;
        let due = self.begin_check(meta);
        let ghost since = choose|s: int| #[trigger] check_due(w0, *meta, s) == due;
        let ghost w1 = *self;
        if !due {
            assert(check_result(w0, *meta, c0, check_due(w0, *meta, since), *self, false));
            return None;
        }
        assert(w1 == with_verify_time(w0, w1.last_full_verify));
        match content {
            Some(c) => {
                let ghost cv = c@;
                let r = self.inspect_content(meta, c);
                proof {
                    let (idle, t) = choose|idle: int, t: Instant|
                        #[trigger] after_read(w1, *meta, cv, default_hash(cv), idle, t) == (*self, r is Some);
                    assert(self.last_full_verify == w1.last_full_verify);
                    assert(after_read(with_verify_time(w0, self.last_full_verify), *meta, cv, default_hash(cv), idle, t) == (*self, r is Some));
                    assert(check_result(w0, *meta, c0, check_due(w0, *meta, since), *self, r is Some));
                }
                r
            },
            None => {
                assert(check_result(w0, *meta, c0, check_due(w0, *meta, since), *self, false));
                None
            },
        }
    }

    /// Whether one check (`check_for_external_content`) finds an external
    /// change.
    pub fn check_for_changes(&mut self, meta: &FileMeta, content: Option<String>) -> (changed: bool)
        ensures
            changed ==> content is Some && final(self).has_external_change,
            !changed && !old(self).has_external_change ==> !final(self).has_external_change,
            exists|since: int| check_result(*old(self), *meta, content, #[trigger] check_due(*old(self), *meta, since), *final(self), changed),
    {
        self.check_for_external_content(meta, content).is_some()
    }

    /// Records that the program itself wrote `content`, so that reading it
    /// back is not taken for an external change. `meta` is what the file
    /// system reports after the write, if it could be read.
    pub fn mark_saved(&mut self, content: &str, meta: Option<FileMeta>)
        ensures
            *final(self) == (FileWatcher {
                warned_invalid_hash: 0,
                last_content_hash: default_hash(content@),
                last_file_size: (content.spec_bytes().len() as usize) as u64,
                last_modified: match meta { Some(m) => m.modified, None => old(self).last_modified },
                has_external_change: false,
                pending_invalid_last_change: None,
                pending_invalid_last_hash: 0,
                last_full_verify: final(self).last_full_verify,
                ..*old(self)
            }),
    {
        self.warned_invalid_hash = 0;
        self.last_content_hash = compute_hash(content);
        self.last_file_size = content.len() as u64;
        if let Some(m) = meta {
            self.last_modified = m.modified;
        }
        self.has_external_change = false;
        self.pending_invalid_last_change = None;
        self.pending_invalid_last_hash = 0;
        self.last_full_verify = now();
    }

    /// Refreshes the known modification time, size and content hash from
    /// what was read from disk (`meta` is `None` if the file could not be
    /// inspected; `content` is `None` if it could not be read).
    pub fn update_timestamp(&mut self, meta: Option<FileMeta>, content: Option<&str>)
        ensures
            meta is None ==> *final(self) == *old(self),
            meta matches Some(m) ==> *final(self) == (FileWatcher {
                last_modified: m.modified,
                last_file_size: m.len,
                last_content_hash: match content { Some(c) => default_hash(c@), None => old(self).last_content_hash },
                has_external_change: false,
                pending_invalid_last_change: None,
                pending_invalid_last_hash: 0,
                last_full_verify: final(self).last_full_verify,
                ..*old(self)
            }),
    {
        if let Some(m) = meta {
            self.last_modified = m.modified;
            self.last_file_size = m.len;
            if let Some(c) = content {
                self.last_content_hash = compute_hash(c);
            }
            self.has_external_change = false;
            self.pending_invalid_last_change = None;
            self.pending_invalid_last_hash = 0;
            self.last_full_verify = now();
        }
    }
}

/// Reading back exactly the text the program saved is never reported as
/// an external change, whatever the metadata and timing.
pub proof fn law_own_write_not_reported(w: FileWatcher, content: Seq<char>, meta: FileMeta, idle: int, now: Instant)
    ensures
        !after_read(FileWatcher { last_content_hash: default_hash(content), ..w }, meta, content,
            default_hash(content), idle, now).1,
{
}

/// A text that is not a complete SVG is reported only when the same text
/// was already pending and has stayed unchanged for the partial-write
/// timeout.
pub proof fn law_incomplete_waits_for_idle(w: FileWatcher, content: Seq<char>, meta: FileMeta, h: u64, idle: int, now: Instant)
    requires
        !is_complete_svg(trim(content)),
        after_read(w, meta, content, h, idle, now).1,
    ensures
        w.pending_invalid_last_change is Some,
        w.pending_invalid_last_hash == h,
        idle >= w.partial_write_timeout,
{
}


/// Once a text has been reported as an external change, reading the same
/// text again is not reported, whatever the metadata and timing.
pub proof fn law_reported_text_not_reported_again(w: FileWatcher, content: Seq<char>, meta: FileMeta, meta2: FileMeta,
    h: u64, idle: int, idle2: int, now: Instant, now2: Instant)
    requires
        after_read(w, meta, content, h, idle, now).1,
    ensures
        !after_read(after_read(w, meta, content, h, idle, now).0, meta2, content, h, idle2, now2).1,
{
}


/// An explicitly configured verification interval other than the 1000 ms
/// default is used as it is, whatever the file size; with the default, the
/// interval grows with the file: 1 s below 1 MiB, then 3 s, 5 s and 10 s,
/// never shorter for a larger file.
pub proof fn law_verify_interval(configured: u64, size: u64, size2: u64)
    ensures
        configured != 1000 ==> spec_verify_interval(configured, size) == configured,
        configured == 1000 && size < 1024 * 1024 ==> spec_verify_interval(configured, size) == 1000,
        configured == 1000 && size >= 30 * 1024 * 1024 ==> spec_verify_interval(configured, size) == 10000,
        configured == 1000 ==> 1000 <= spec_verify_interval(configured, size) <= 10000,
        configured == 1000 && size <= size2 ==> spec_verify_interval(configured, size) <= spec_verify_interval(configured, size2),
{
}

} // verus!
