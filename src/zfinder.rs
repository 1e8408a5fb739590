use vstd::prelude::*;

verus! {

/// The byte that stands for a joker: it matches any single card.
pub const JOKER: u8 = 0x40;

/// The byte placed between pattern and text in the joined buffer.
pub const SENTINEL: u8 = 0xFF;

/// Wildcard-aware equality: the second operand is the pattern side, and a joker there
/// matches anything. A joker on the first operand matches only itself.
pub open spec fn eqw(a: u8, b: u8) -> bool {
    a == b || b == JOKER
}

/// The pattern lies over the text at offset `k`.
pub open spec fn matches_at(text: Seq<u8>, pattern: Seq<u8>, k: int) -> bool {
    &&& 0 <= k
    &&& k + pattern.len() <= text.len()
    &&& forall|j: int| 0 <= j < pattern.len() ==> eqw(text[k + j], #[trigger] pattern[j])
}

/// `k` is an occurrence of a nonempty pattern in the text.
pub open spec fn occurs(text: Seq<u8>, pattern: Seq<u8>, k: int) -> bool {
    pattern.len() > 0 && matches_at(text, pattern, k)
}

/// `v` is the length of the longest prefix of `s` that matches `s` from position `i`.
pub open spec fn is_z_value(s: Seq<u8>, i: int, v: int) -> bool {
    &&& 0 <= v <= s.len() - i
    &&& forall|j: int| 0 <= j < v ==> #[trigger] eqw(s[i + j], s[j])
    &&& (i + v == s.len() || !eqw(s[i + v], s[v]))
}

/// Each element is smaller than every later one.
pub open spec fn strictly_increasing(v: Seq<usize>) -> bool {
    forall|a: int, b: int| 0 <= a < b < v.len() ==> v[a] < v[b]
}

proof fn lemma_eqw_transitive(a: u8, b: u8, c: u8)
    requires
        eqw(a, b),
        eqw(b, c),
    ensures
        eqw(a, c),
{
}

/// Turning any position of the pattern into a joker keeps every occurrence: the set of
/// occurrences can only grow.
pub proof fn lemma_joker_widens(text: Seq<u8>, pattern: Seq<u8>, j: int, k: int)
    requires
        0 <= j < pattern.len(),
        occurs(text, pattern, k),
    ensures
        occurs(text, pattern.update(j, JOKER), k),
{
    let q = pattern.update(j, JOKER);
    assert forall|i: int| 0 <= i < q.len() implies eqw(text[k + i], #[trigger] q[i]) by {
        assert(eqw(text[k + i], pattern[i]));
    }
}

/// The outcome of a search that found nothing.
#[derive(Debug, PartialEq, Eq, Clone, Copy, Structural)]
pub enum FindError {
    /// No further occurrence after the cursor.
    NoMore,
    /// No occurrence at all.
    NoMatch,
}

/// Finds every occurrence of a pattern, which may hold jokers, in a text, by the
/// Z-array of `pattern ++ [SENTINEL] ++ text`.
pub struct ZFinder {
    cursor: usize,
    pattern_size: usize,
    joined: Vec<u8>,
    z_arr: Vec<usize>,
}

impl ZFinder {
    /// The pattern searched for.
    pub closed spec fn pattern(&self) -> Seq<u8> {
        self.joined@.subrange(0, self.pattern_size as int)
    }

    /// The text searched in.
    pub closed spec fn text(&self) -> Seq<u8> {
        self.joined@.subrange(self.pattern_size as int + 1, self.joined@.len() as int)
    }

    /// The first text offset that the next search looks at.
    pub closed spec fn scan_start(&self) -> int {
        if self.cursor > self.pattern_size {
            self.cursor - self.pattern_size
        } else {
            0
        }
    }

    /// The joined buffer is `pattern ++ [SENTINEL] ++ text`, with no sentinel in the
    /// text, and the Z-array is exact at every position but the first.
    pub closed spec fn wf(&self) -> bool {
        let m = self.pattern_size as int;
        let n = self.joined@.len();
        &&& m < n <= usize::MAX
        &&& self.joined@[m] == SENTINEL
        &&& forall|t: int| m < t < n ==> #[trigger] self.joined@[t] != SENTINEL
        &&& self.z_arr@.len() == n
        &&& self.z_arr@[0] == 0
        &&& forall|i: int| 1 <= i < n ==> is_z_value(self.joined@, i, #[trigger] self.z_arr@[i] as int)
        &&& self.cursor < n
    }

    /// Builds the finder for `data` (the text) and `pattern`; the cursor starts before
    /// the first offset.
    pub fn new(data: &[u8], pattern: &[u8]) -> (r: ZFinder)
        requires
            pattern@.len() + data@.len() < usize::MAX,
            forall|t: int| 0 <= t < data@.len() ==> #[trigger] data@[t] != SENTINEL,
        ensures
            r.wf(),
            r.text().len() + r.pattern().len() < usize::MAX,
            r.text() == data@,
            r.pattern() == pattern@,
            r.scan_start() == 0,
    {
        let mut joined: Vec<u8> = Vec::new();
        let mut p: usize = 0;
        while p < pattern.len()
            invariant
                p <= pattern@.len(),
                joined@ == pattern@.subrange(0, p as int),
            decreases pattern@.len() - p,
        {
            joined.push(pattern[p]);
            p += 1;
        }
        joined.push(SENTINEL);
        let mut d: usize = 0;
        while d < data.len()
            invariant
                d <= data@.len(),
                joined@ == pattern@ + seq![SENTINEL] + data@.subrange(0, d as int),
                pattern@.len() + data@.len() < usize::MAX,
            decreases data@.len() - d,
        {
            joined.push(data[d]);
            d += 1;
        }
        assert(pattern@.subrange(0, pattern@.len() as int) =~= pattern@);
        assert(data@.subrange(0, data@.len() as int) =~= data@);
        let mut result = ZFinder { cursor: 0, pattern_size: pattern.len(), joined, z_arr: Vec::new() };
        result.build_z_array();
        assert(result.pattern() =~= pattern@);
        assert(result.text() =~= data@);
        assert forall|t: int| pattern@.len() < t < result.joined@.len() implies #[trigger] result.joined@[t]
            != SENTINEL by {
            assert(result.joined@[t] == data@[t - pattern@.len() - 1]);
        }
        result
    }

    /// The number of positions, from `first` and `second` on, at which the joined
    /// buffer matches itself, the wildcard taken on the side of `second`; 0 where `first`
    /// is past the end.
    fn compare_parts(&self, first: usize, second: usize) -> (cnt: usize)
        requires
            second <= first,
        ensures
            first >= self.joined@.len() ==> cnt == 0,
            first < self.joined@.len() ==> {
                &&& first + cnt <= self.joined@.len()
                &&& forall|j: int|
                    0 <= j < cnt ==> #[trigger] eqw(self.joined@[first + j], self.joined@[second + j])
                &&& first + cnt == self.joined@.len() || !eqw(
                    self.joined@[first + cnt],
                    self.joined@[second + cnt],
                )
            },
    {
        if first >= self.joined.len() {
            return 0;
        }
        let mut cnt: usize = 0;
        while cnt < self.joined.len() - first && (self.joined[first + cnt] == self.joined[second + cnt]
            || self.joined[second + cnt] == JOKER)
            invariant
                second <= first < self.joined@.len(),
                first + cnt <= self.joined@.len(),
                forall|j: int| 0 <= j < cnt ==> #[trigger] eqw(self.joined@[first + j], self.joined@[second + j]),
            decreases self.joined@.len() - first - cnt,
        {
            cnt += 1;
        }
        cnt
    }

    /// Fills the Z-array of the joined buffer. A value copied from inside the current
    /// Z-box is only a lower bound under wildcards, so each position is then extended
    /// by direct comparison.
    fn build_z_array(&mut self)
        requires
            old(self).joined@.len() > 0,
        ensures
            final(self).joined == old(self).joined,
            final(self).pattern_size == old(self).pattern_size,
            final(self).cursor == old(self).cursor,
            final(self).z_arr@.len() == final(self).joined@.len(),
            final(self).z_arr@[0] == 0,
            forall|i: int| 1 <= i < final(self).joined@.len() ==> is_z_value(
                final(self).joined@,
                i,
                #[trigger] final(self).z_arr@[i] as int,
            ),
    {
        let n = self.joined.len();
        self.z_arr = vec![0; n];
        let mut window_left: usize = 0;
        let mut window_end: usize = 0;
        let mut i: usize = 1;
        while i < n
            invariant
                n == self.joined@.len(),
                self.joined == old(self).joined,
                self.pattern_size == old(self).pattern_size,
                self.cursor == old(self).cursor,
                self.z_arr@.len() == n,
                self.z_arr@[0] == 0,
                1 <= i <= n,
                window_left < i,
                window_end <= n,
                window_left == 0 ==> window_end == 0,
                forall|t: int| 1 <= t < i ==> is_z_value(self.joined@, t, #[trigger] self.z_arr@[t] as int),
                forall|j: int| window_left <= j < window_end ==> #[trigger] eqw(
                    self.joined@[j],
                    self.joined@[j - window_left],
                ),
            decreases n - i,
        {
            let ghost s = self.joined@;
            let mut known: usize = 0;
            if i < window_end {
                let k = i - window_left;
                let zk = self.z_arr[k];
                known = if zk < window_end - i { zk } else { window_end - i };
                assert forall|j: int| 0 <= j < known implies #[trigger] eqw(s[i + j], s[j]) by {
                    assert(eqw(s[window_left + (k + j)], s[window_left + (k + j) - window_left]));
                    assert(is_z_value(s, k as int, zk as int));
                    assert(eqw(s[k + j], s[j]));
                    lemma_eqw_transitive(s[i + j], s[k + j], s[j]);
                }
            }
            let cnt = self.compare_parts(i + known, known);
            let v = known + cnt;
            self.z_arr.set(i, v);
            assert forall|j: int| 0 <= j < v implies #[trigger] eqw(s[i + j], s[j]) by {
                if j >= known {
                    assert(eqw(s[(i + known) + (j - known)], s[known + (j - known)]));
                }
            }
            assert(is_z_value(s, i as int, v as int));
            if i + v > window_end {
                assert forall|j: int| i <= j < i + v implies #[trigger] eqw(s[j], s[j - i]) by {
                    assert(eqw(s[i + (j - i)], s[j - i]));
                }
                window_left = i;
                window_end = i + v;
            }
            i += 1;
        }
    }

    /// Reports the first occurrence at or after `scan_start()` and moves the cursor
    /// past it; an empty pattern has no occurrence.
    pub fn find(&mut self) -> (r: Result<usize, FindError>)
        requires
            old(self).wf(),
        ensures
            final(self).wf(),
            final(self).text() == old(self).text(),
            final(self).pattern() == old(self).pattern(),
            match r {
                Ok(k) => {
                    &&& old(self).scan_start() <= k
                    &&& occurs(old(self).text(), old(self).pattern(), k as int)
                    &&& forall|k2: int|
                        old(self).scan_start() <= k2 < k ==> !#[trigger] occurs(
                            old(self).text(),
                            old(self).pattern(),
                            k2,
                        )
                    &&& final(self).scan_start() == k + 1
                },
                Err(e) => {
                    &&& e == FindError::NoMore
                    &&& forall|k2: int|
                        old(self).scan_start() <= k2 ==> !#[trigger] occurs(
                            old(self).text(),
                            old(self).pattern(),
                            k2,
                        )
                    &&& final(self).scan_start() == old(self).scan_start()
                },
            },
    {
        if self.pattern_size == 0 {
            return Err(FindError::NoMore);
        }
        let start = if self.cursor > self.pattern_size {
            self.cursor
        } else {
            self.pattern_size
        } + 1;
        let mut i = start;
        while i < self.joined.len()
            invariant
                *self == *old(self),
                self.wf(),
                self.pattern_size > 0,
                start == self.pattern_size + 1 + self.scan_start(),
                start <= i <= self.joined@.len(),
                forall|k2: int|
                    self.scan_start() <= k2 < i - self.pattern_size - 1 ==> !#[trigger] occurs(
                        self.text(),
                        self.pattern(),
                        k2,
                    ),
            decreases self.joined@.len() - i,
        {
            let k = i - self.pattern_size - 1;
            proof {
                self.lemma_z_at_text(k as int);
            }
            if self.z_arr[i] == self.pattern_size {
                self.cursor = i;
                return Ok(k);
            }
            i += 1;
        }
        Err(FindError::NoMore)
    }

    /// Reports, in increasing order, every occurrence at or after `scan_start()`, or
    /// `NoMatch` where there is none.
    pub fn find_all(&mut self) -> (r: Result<Vec<usize>, FindError>)
        requires
            old(self).wf(),
        ensures
            final(self).wf(),
            final(self).text() == old(self).text(),
            final(self).pattern() == old(self).pattern(),
            match r {
                Ok(v) => {
                    &&& v@.len() > 0
                    &&& strictly_increasing(v@)
                    &&& forall|i: int|
                        0 <= i < v@.len() ==> old(self).scan_start() <= #[trigger] v@[i]
                            && v@[i] + old(self).pattern().len() <= old(self).text().len()
                            && occurs(old(self).text(), old(self).pattern(), v@[i] as int)
                    &&& forall|k: int|
                        old(self).scan_start() <= k && #[trigger] occurs(
                            old(self).text(),
                            old(self).pattern(),
                            k,
                        ) ==> v@.contains(k as usize)
                },
                Err(e) => {
                    &&& e == FindError::NoMatch
                    &&& forall|k: int|
                        old(self).scan_start() <= k ==> !#[trigger] occurs(
                            old(self).text(),
                            old(self).pattern(),
                            k,
                        )
                },
            },
    {
        let ghost start = self.scan_start();
        let ghost text = self.text();
        let ghost pattern = self.pattern();
        let mut result: Vec<usize> = Vec::new();
        loop
            invariant
                self.wf(),
                self.text() == text,
                self.pattern() == pattern,
                start == old(self).scan_start(),
                text == old(self).text(),
                pattern == old(self).pattern(),
                start <= self.scan_start() <= text.len(),
                result@.len() == 0 ==> self.scan_start() == start,
                result@.len() > 0 ==> result@.last() + 1 == self.scan_start(),
                strictly_increasing(result@),
                forall|i: int|
                    0 <= i < result@.len() ==> start <= #[trigger] result@[i] && occurs(
                        text,
                        pattern,
                        result@[i] as int,
                    ),
                forall|k: int|
                    start <= k < self.scan_start() && #[trigger] occurs(text, pattern, k)
                        ==> result@.contains(k as usize),
            ensures
                forall|k: int| self.scan_start() <= k ==> !#[trigger] occurs(text, pattern, k),
            decreases text.len() - self.scan_start(),
        {
            match self.find() {
                Ok(k) => {
                    let ghost before = result@;
                    result.push(k);
                    assert forall|k2: int|
                        start <= k2 < self.scan_start() && #[trigger] occurs(text, pattern, k2)
                            implies result@.contains(k2 as usize) by {
                        if k2 == k {
                            assert(result@[before.len() as int] == k);
                        } else {
                            let w = choose|w: int| 0 <= w < before.len() && before[w] == k2 as usize;
                            assert(result@[w] == k2 as usize);
                        }
                    }
                },
                Err(_) => {
                    break;
                },
            }
        }
        if result.len() == 0 {
            Err(FindError::NoMatch)
        } else {
            Ok(result)
        }
    }

    /// At a text offset, the Z-value is the pattern's length exactly where the pattern
    /// matches.
    proof fn lemma_z_at_text(&self, k: int)
        requires
            self.wf(),
            0 <= k < self.text().len(),
        ensures
            (self.z_arr@[self.pattern_size + 1 + k] == self.pattern_size) <==> matches_at(
                self.text(),
                self.pattern(),
                k,
            ),
    {
        let s = self.joined@;
        let m = self.pattern_size as int;
        let i = m + 1 + k;
        let z = self.z_arr@[i] as int;
        assert(is_z_value(s, i, z));
        if z == m {
            assert forall|j: int| 0 <= j < m implies eqw(
                self.text()[k + j],
                #[trigger] self.pattern()[j],
            ) by {
                assert(eqw(s[i + j], s[j]));
            }
        }
        if matches_at(self.text(), self.pattern(), k) {
            if z < m {
                assert(eqw(self.text()[k + z], self.pattern()[z]));
            }
            if z > m {
                assert(eqw(s[i + m], s[m]));
                assert(s[i + m] != SENTINEL);
            }
        }
    }
}

} // verus!
