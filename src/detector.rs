//! The detection engine: a store of templates, the adaptive choice of which templates to
//! search each frame, peak extraction per template and the merge of all detections.
use vstd::prelude::*;
use crate::geometry::{Point, Scale, dist2, lemma_unscaled_monotonic};
use crate::peaks::{Peak, ScoreSurface, find_peaks, peaks_of};
use crate::template::{Image, ObjectTemplate, TemplateError, images_ok, without_backdrop};
use crate::text::{name_number, name_level, name_level_of, name_number_of};

verus! {

/// One located, scored match of a template in a frame.
#[derive(Clone, Debug)]
pub struct DetectionResult {
    pub object_name: String,
    /// Top-left corner of the match, in pixels of the full-size frame.
    pub location: Point,
    /// Correlation score, in units of `SCORE_ONE`.
    pub confidence: i32,
}

/// Finds templates in frames, and narrows the templates it searches to those near the
/// levels it saw last.
pub struct ObjectDetector {
    pub templates: Vec<ObjectTemplate>,
    /// The factor every frame is resized by before matching.
    pub base_scale_factor: Scale,
    /// Indices of the first and last template of the searched range.
    pub active_range: (usize, usize),
    /// Whether the range is still the unconstrained one it starts with.
    pub full_range: bool,
}

/// The range that covers all of `n` templates.
pub open spec fn whole_range(n: int) -> (int, int) {
    (0, if n == 0 { 0 } else { n - 1 })
}

/// `v` limited to the index of the last of `n` templates.
pub open spec fn clamp_index(v: int, n: int) -> int {
    let last = if n == 0 { 0 } else { n - 1 };
    if v < last { v } else { last }
}

/// Whether the name `name` ends in a number within `[lo, hi]`.
pub open spec fn in_band(name: Seq<char>, lo: int, hi: int) -> bool {
    match name_number(name) {
        Some(v) => lo <= v <= hi,
        None => false,
    }
}

/// The first index of `names` whose number is within `[lo, hi]`.
pub open spec fn first_in_band(names: Seq<Seq<char>>, lo: int, hi: int) -> Option<int>
    decreases names.len(),
{
    if names.len() == 0 {
        None
    } else {
        match first_in_band(names.drop_last(), lo, hi) {
            Some(i) => Some(i),
            None => if in_band(names.last(), lo, hi) {
                Some(names.len() - 1)
            } else {
                None
            },
        }
    }
}

/// The last index of `names` whose number is within `[lo, hi]`.
pub open spec fn last_in_band(names: Seq<Seq<char>>, lo: int, hi: int) -> Option<int>
    decreases names.len(),
{
    if names.len() == 0 {
        None
    } else if in_band(names.last(), lo, hi) {
        Some(names.len() - 1)
    } else {
        last_in_band(names.drop_last(), lo, hi)
    }
}

pub open spec fn min_of(s: Seq<u32>) -> int
    decreases s.len(),
{
    if s.len() <= 1 {
        s[0] as int
    } else {
        let m = min_of(s.drop_last());
        if s.last() < m { s.last() as int } else { m }
    }
}

pub open spec fn max_of(s: Seq<u32>) -> int
    decreases s.len(),
{
    if s.len() <= 1 {
        s[0] as int
    } else {
        let m = max_of(s.drop_last());
        if s.last() > m { s.last() as int } else { m }
    }
}

/// Lowest level the first detections narrow to: 5 below the lowest seen, at least 0.
pub open spec fn narrow_lo(levels: Seq<u32>) -> int {
    if min_of(levels) >= 5 { min_of(levels) - 5 } else { 0 }
}

/// Highest level the first detections narrow to: 8 above the highest seen.
pub open spec fn narrow_hi(levels: Seq<u32>) -> int {
    max_of(levels) + 8
}

/// The range the first detections narrow the full range to: from the first to the last
/// template whose number lies within `[narrow_lo, narrow_hi]`; the whole store where none
/// does.
pub open spec fn narrowed_range(names: Seq<Seq<char>>, levels: Seq<u32>) -> (int, int) {
    let lo = narrow_lo(levels);
    let hi = narrow_hi(levels);
    match (first_in_band(names, lo, hi), last_in_band(names, lo, hi)) {
        (Some(a), Some(b)) => (a, b),
        _ => whole_range(names.len() as int),
    }
}

/// The range after a narrowed `range` sees `levels`: widened, never shrunk, to reach 3
/// below the lowest and 3 above the highest level, taken as indices.
pub open spec fn widened_range(n: int, range: (int, int), levels: Seq<u32>) -> (int, int) {
    let lo = if min_of(levels) >= 3 { min_of(levels) - 3 } else { 0 };
    let hi = max_of(levels) + 3;
    let start = if lo < range.0 { lo } else { range.0 };
    let end = if hi > range.1 { hi } else { range.1 };
    (clamp_index(start, n), clamp_index(end, n))
}

/// The active range and full-range flag after a frame whose detections have `levels`.
pub open spec fn next_range(names: Seq<Seq<char>>, range: (int, int), full: bool, levels: Seq<u32>) -> ((int, int), bool) {
    if levels.len() == 0 {
        (whole_range(names.len() as int), true)
    } else if full {
        (narrowed_range(names, levels), false)
    } else {
        (widened_range(names.len() as int, range, levels), false)
    }
}

/// The indices below `k` of always-active templates, in order.
pub open spec fn always_upto(flags: Seq<bool>, k: int) -> Seq<usize>
    decreases k,
{
    if k <= 0 {
        Seq::empty()
    } else {
        let r = always_upto(flags, k - 1);
        if flags[k - 1] { r.push((k - 1) as usize) } else { r }
    }
}

/// The indices below `k` of other templates within `[start, end]`, in order.
pub open spec fn ranged_upto(flags: Seq<bool>, start: int, end: int, k: int) -> Seq<usize>
    decreases k,
{
    if k <= 0 {
        Seq::empty()
    } else {
        let r = ranged_upto(flags, start, end, k - 1);
        if !flags[k - 1] && start <= k - 1 <= end { r.push((k - 1) as usize) } else { r }
    }
}

pub open spec fn opt_index(o: Option<usize>) -> Option<int> {
    match o {
        Some(v) => Some(v as int),
        None => None,
    }
}

/// The first index of a template named `name`.
pub open spec fn first_named(ts: Seq<ObjectTemplate>, name: Seq<char>) -> Option<int>
    decreases ts.len(),
{
    if ts.len() == 0 {
        None
    } else {
        match first_named(ts.drop_last(), name) {
            Some(i) => Some(i),
            None => if ts.last().name@ == name {
                Some(ts.len() - 1)
            } else {
                None
            },
        }
    }
}

/// Whether `ps` are the peaks a template with `threshold` and a `fw` by `fh` footprint
/// finds on `sf`.
pub open spec fn found_peaks(sf: &ScoreSurface, threshold: int, fw: int, fh: int, ps: Seq<Peak>) -> bool {
    if fw == 0 || fh == 0 {
        ps.len() == 0
    } else {
        peaks_of(sf, threshold, fw, fh, ps)
    }
}

/// Whether `d` reports peak `p` of the template `name` on a frame resized by `s`.
pub open spec fn reports(d: DetectionResult, name: Seq<char>, p: Peak, s: Scale) -> bool {
    &&& d.object_name@ == name
    &&& d.location.x == s.unscaled(p.x as int)
    &&& d.location.y == s.unscaled(p.y as int)
    &&& d.confidence == p.score
}

/// Whether `ds` report the peaks `ps`, one each, in order.
pub open spec fn reports_all(ds: Seq<DetectionResult>, name: Seq<char>, ps: Seq<Peak>, s: Scale) -> bool {
    &&& ds.len() == ps.len()
    &&& forall|k: int| 0 <= k < ps.len() ==> #[trigger] reports(ds[k], name, ps[k], s)
}

/// `s` with `d` placed after every element of at least its confidence.
pub open spec fn insert_desc(s: Seq<DetectionResult>, d: DetectionResult) -> Seq<DetectionResult>
    decreases s.len(),
{
    if s.len() > 0 && s.last().confidence < d.confidence {
        insert_desc(s.drop_last(), d).push(s.last())
    } else {
        s.push(d)
    }
}

/// `s` ordered by descending confidence; equal confidences keep their order.
pub open spec fn sort_desc(s: Seq<DetectionResult>) -> Seq<DetectionResult>
    decreases s.len(),
{
    if s.len() == 0 {
        s
    } else {
        insert_desc(sort_desc(s.drop_last()), s.last())
    }
}

/// The separation distance of the template that `d` is a detection of.
pub open spec fn separation(ts: Seq<ObjectTemplate>, d: DetectionResult) -> int {
    match first_named(ts, d.object_name@) {
        Some(i) => ts[i].min_distance as int,
        None => 0,
    }
}

/// Whether `loc` lies within the separation distance of one of `kept`.
pub open spec fn too_close(ts: Seq<ObjectTemplate>, kept: Seq<DetectionResult>, loc: Point) -> bool {
    exists|j: int|
        0 <= j < kept.len() && dist2(#[trigger] kept[j].location, loc) < separation(ts, kept[j])
            * separation(ts, kept[j])
}

/// The detections of `s` kept by a walk in order: each whose template is in the store and
/// that lies outside the separation distance of every detection kept before it.
pub open spec fn keep_separated(ts: Seq<ObjectTemplate>, s: Seq<DetectionResult>) -> Seq<DetectionResult>
    decreases s.len(),
{
    if s.len() == 0 {
        s
    } else {
        let kept = keep_separated(ts, s.drop_last());
        let d = s.last();
        if first_named(ts, d.object_name@) is Some && !too_close(ts, kept, d.location) {
            kept.push(d)
        } else {
            kept
        }
    }
}

/// The detections that survive deduplication: the separated ones, most confident first.
pub open spec fn deduplicated(ts: Seq<ObjectTemplate>, s: Seq<DetectionResult>) -> Seq<DetectionResult> {
    keep_separated(ts, sort_desc(s))
}

/// The level of each detection's template name.
pub open spec fn levels_of(ds: Seq<DetectionResult>) -> Seq<u32> {
    ds.map_values(|d: DetectionResult| name_level(d.object_name@))
}

pub(crate) fn copy_detection(d: &DetectionResult) -> (r: DetectionResult)
    ensures
        r == *d,
{
    DetectionResult { object_name: d.object_name.clone(), location: d.location, confidence: d.confidence }
}

proof fn lemma_insert_desc(s: Seq<DetectionResult>, d: DetectionResult, k: int)
    requires
        0 <= k <= s.len(),
        forall|j: int| k <= j < s.len() ==> (#[trigger] s[j]).confidence < d.confidence,
        k == 0 || s[k - 1].confidence >= d.confidence,
    ensures
        insert_desc(s, d) == s.insert(k, d),
    decreases s.len(),
{
    if s.len() > k {
        let t = s.drop_last();
        assert(s[s.len() - 1].confidence < d.confidence);
        assert forall|j: int| k <= j < t.len() implies (#[trigger] t[j]).confidence < d.confidence by {
            assert(t[j] == s[j]);
        }
        lemma_insert_desc(t, d, k);
        assert(t.insert(k, d).push(s.last()) =~= s.insert(k, d));
    } else {
        assert(s.push(d) =~= s.insert(k, d));
    }
}

impl ObjectDetector {
    pub open spec fn names(&self) -> Seq<Seq<char>> {
        self.templates@.map_values(|t: ObjectTemplate| t.name@)
    }

    pub open spec fn flags(&self) -> Seq<bool> {
        self.templates@.map_values(|t: ObjectTemplate| t.always_active)
    }

    pub open spec fn range(&self) -> (int, int) {
        (self.active_range.0 as int, self.active_range.1 as int)
    }

    pub open spec fn wf(&self) -> bool {
        let n = self.templates@.len() as int;
        &&& self.base_scale_factor.wf()
        &&& forall|i: int| 0 <= i < n ==> (#[trigger] self.templates@[i]).wf()
        &&& n == 0 ==> self.range() == (0int, 0int)
        &&& n > 0 ==> self.range().0 <= self.range().1 < n
    }

    /// The indices of the templates searched in the current frame: every always-active
    /// template, then the others within the active range, each in store order.
    pub open spec fn active_indices(&self) -> Seq<usize> {
        let n = self.templates@.len() as int;
        always_upto(self.flags(), n) + ranged_upto(self.flags(), self.range().0, self.range().1, n)
    }

    /// A detector with no templates that resizes frames by `base_scale_factor`.
    pub fn new(base_scale_factor: Scale) -> (r: ObjectDetector)
        requires
            base_scale_factor.wf(),
        ensures
            r.wf(),
            r.templates@.len() == 0,
            r.base_scale_factor == base_scale_factor,
            r.full_range,
    {
        ObjectDetector { templates: Vec::new(), base_scale_factor, active_range: (0, 0), full_range: true }
    }

    /// Registers a template at the end of the store and resets the active range to the
    /// whole store.
    pub fn add_template(
        &mut self,
        name: &str,
        template: Image,
        gray_template: Image,
        threshold: u32,
        min_distance: u32,
        red: u8,
        green: u8,
        blue: u8,
        resolution: Option<Scale>,
        always_active: bool,
    ) -> (r: Result<(), TemplateError>)
        requires
            old(self).wf(),
        ensures
            final(self).wf(),
            final(self).base_scale_factor == old(self).base_scale_factor,
            match r {
                Ok(()) => {
                    let t = final(self).templates@.last();
                    &&& images_ok(&template, &gray_template)
                    &&& final(self).templates@.len() == old(self).templates@.len() + 1
                    &&& final(self).templates@.drop_last() == old(self).templates@
                    &&& t.name@ == name@
                    &&& t.template.width == template.width
                    &&& t.template.height == template.height
                    &&& t.template.data@ == without_backdrop(template.data@)
                    &&& t.gray_template == gray_template
                    &&& t.threshold == threshold
                    &&& t.min_distance == min_distance
                    &&& t.red == red && t.green == green && t.blue == blue
                    &&& t.resolution == resolution
                    &&& t.always_active == always_active
                    &&& final(self).range() == whole_range(final(self).templates@.len() as int)
                    &&& final(self).full_range
                },
                Err(e) => {
                    &&& e == TemplateError::ImageLoad
                    &&& !images_ok(&template, &gray_template)
                    &&& *final(self) == *old(self)
                },
            },
    {
        let t = ObjectTemplate::new(
            name,
            template,
            gray_template,
            threshold,
            min_distance,
            red,
            green,
            blue,
            resolution,
            always_active,
        );
        match t {
            Err(e) => Err(e),
            Ok(t) => {
                let ghost before = self.templates@;
                self.templates.push(t);
                assert(self.templates@.drop_last() =~= before);
                self.active_range = (0, self.templates.len() - 1);
                self.full_range = true;
                Ok(())
            },
        }
    }

    /// Adapts the active range to the levels detected in the last frame.
    ///
    /// No levels: back to the full range. First levels after the full range: the span of
    /// templates whose numbers lie from 5 below the lowest to 8 above the highest level.
    /// Later levels: the range only widens, towards 3 below the lowest and 3 above the
    /// highest level, taken as indices; bounds stay within the store.
    pub fn update_active_range(&mut self, detected_numbers: &[u32])
        requires
            old(self).wf(),
        ensures
            final(self).wf(),
            final(self).templates == old(self).templates,
            final(self).base_scale_factor == old(self).base_scale_factor,
            (final(self).range(), final(self).full_range) == next_range(
                old(self).names(),
                old(self).range(),
                old(self).full_range,
                detected_numbers@,
            ),
            detected_numbers@.len() == 0 ==> final(self).full_range && final(self).range()
                == whole_range(old(self).templates@.len() as int),
            old(self).full_range && detected_numbers@.len() > 0 ==> forall|i: int|
                0 <= i < old(self).templates@.len() && in_band(
                    #[trigger] old(self).names()[i],
                    narrow_lo(detected_numbers@),
                    narrow_hi(detected_numbers@),
                ) ==> final(self).range().0 <= i <= final(self).range().1,
            !old(self).full_range && detected_numbers@.len() > 0 ==> final(self).range().0
                <= old(self).range().0 && old(self).range().1 <= final(self).range().1,
    {
        let n = self.templates.len();
        let last = if n == 0 { 0 } else { n - 1 };
        if detected_numbers.len() == 0 {
            self.active_range = (0, last);
            self.full_range = true;
            return;
        }
        let (mn, mx) = min_max(detected_numbers);
        if self.full_range {
            let lo: u64 = if mn >= 5 { (mn - 5) as u64 } else { 0 };
            let hi: u64 = mx as u64 + 8;
            let mut first: Option<usize> = None;
            let mut fin: Option<usize> = None;
            let mut i: usize = 0;
            while i < n
                invariant
                    n == self.templates@.len(),
                    i <= n,
                    opt_index(first) == first_in_band(self.names().take(i as int), lo as int, hi as int),
                    opt_index(fin) == last_in_band(self.names().take(i as int), lo as int, hi as int),
                decreases n - i,
            {
                let num = name_number_of(self.templates[i].name.as_str());
                let inside = match num {
                    Some(v) => lo <= v as u64 && v as u64 <= hi,
                    None => false,
                };
                proof {
                    let t = self.names().take(i + 1);
                    assert(t.drop_last() =~= self.names().take(i as int));
                    assert(t.last() == self.templates@[i as int].name@);
                }
                if inside {
                    if first.is_none() {
                        first = Some(i);
                    }
                    fin = Some(i);
                }
                i = i + 1;
            }
            assert(self.names().take(n as int) =~= self.names());
            proof {
                lemma_first_in_band(self.names(), lo as int, hi as int);
                lemma_last_in_band(self.names(), lo as int, hi as int);
            }
            self.active_range = match (first, fin) {
                (Some(a), Some(b)) => (a, b),
                _ => (0, last),
            };
            self.full_range = false;
        } else {
            let (start, end) = self.active_range;
            let lo: u64 = if mn >= 3 { (mn - 3) as u64 } else { 0 };
            let hi: u64 = mx as u64 + 3;
            let new_start: u64 = if lo < start as u64 { lo } else { start as u64 };
            let new_end: u64 = if hi > end as u64 { hi } else { end as u64 };
            let s = if new_start < last as u64 { new_start as usize } else { last };
            let e = if new_end < last as u64 { new_end as usize } else { last };
            self.active_range = (s, e);
        }
    }

    /// The detections of template `index` on a frame resized by the base scale factor,
    /// given the template's score surface `surface` on that frame and the size
    /// `scaled_width` by `scaled_height` the template was resized to. Each peak's cell is
    /// mapped back to the full-size frame by the base scale factor.
    pub fn detections_from_surface(
        &self,
        index: usize,
        surface: &ScoreSurface,
        scaled_width: usize,
        scaled_height: usize,
    ) -> (r: Vec<DetectionResult>)
        requires
            self.wf(),
            index < self.templates@.len(),
            surface.wf(),
            self.base_scale_factor.unscaled(surface.width as int) <= i32::MAX,
            self.base_scale_factor.unscaled(surface.height as int) <= i32::MAX,
        ensures
            exists|ps: Seq<Peak>|
                #![trigger found_peaks(surface, self.templates@[index as int].threshold as int, scaled_width as int, scaled_height as int, ps)]
                found_peaks(
                    surface,
                    self.templates@[index as int].threshold as int,
                    scaled_width as int,
                    scaled_height as int,
                    ps,
                ) && reports_all(r@, self.templates@[index as int].name@, ps, self.base_scale_factor),
    {
        let t = &self.templates[index];
        let peaks = find_peaks(surface, t.threshold, scaled_width, scaled_height);
        let s = self.base_scale_factor;
        let mut r: Vec<DetectionResult> = Vec::new();
        let mut k: usize = 0;
        while k < peaks.len()
            invariant
                k <= peaks@.len(),
                s == self.base_scale_factor,
                s.wf(),
                s.unscaled(surface.width as int) <= i32::MAX,
                s.unscaled(surface.height as int) <= i32::MAX,
                scaled_width > 0 && scaled_height > 0 ==> peaks_of(
                    surface,
                    t.threshold as int,
                    scaled_width as int,
                    scaled_height as int,
                    peaks@,
                ),
                scaled_width == 0 || scaled_height == 0 ==> peaks@.len() == 0,
                r@.len() == k,
                forall|j: int| 0 <= j < k ==> #[trigger] reports(r@[j], t.name@, peaks@[j], s),
            decreases peaks@.len() - k,
        {
            let p = peaks[k];
            proof {
                let kk = k as int;
                assert(crate::peaks::is_next_peak(
                    surface,
                    t.threshold as int,
                    scaled_width as int,
                    scaled_height as int,
                    peaks@.take(kk),
                    peaks@[kk],
                ));
                lemma_unscaled_monotonic(s, p.x as int, surface.width as int);
                lemma_unscaled_monotonic(s, p.y as int, surface.height as int);
            }
            let d = DetectionResult {
                object_name: t.name.clone(),
                location: Point { x: s.unscale(p.x), y: s.unscale(p.y) },
                confidence: p.score,
            };
            r.push(d);
            k = k + 1;
        }
        assert(found_peaks(surface, t.threshold as int, scaled_width as int, scaled_height as int, peaks@));
        r
    }

    /// Removes duplicate detections: most confident first, each detection is kept unless
    /// it lies within the separation distance of one kept before it; detections of
    /// templates not in the store are dropped.
    pub fn filter_close_detections(&self, results: Vec<DetectionResult>) -> (r: Vec<DetectionResult>)
        ensures
            r@ == deduplicated(self.templates@, results@),
    {
        let mut sorted: Vec<DetectionResult> = Vec::new();
        let mut i: usize = 0;
        while i < results.len()
            invariant
                i <= results@.len(),
                sorted@ == sort_desc(results@.take(i as int)),
            decreases results@.len() - i,
        {
            let d = copy_detection(&results[i]);
            let mut k = sorted.len();
            while k > 0 && sorted[k - 1].confidence < d.confidence
                invariant
                    k <= sorted@.len(),
                    forall|j: int| k <= j < sorted@.len() ==> (#[trigger] sorted@[j]).confidence
                        < d.confidence,
                decreases k,
            {
                k = k - 1;
            }
            proof {
                lemma_insert_desc(sorted@, d, k as int);
                assert(results@.take(i + 1).drop_last() =~= results@.take(i as int));
            }
            sorted.insert(k, d);
            i = i + 1;
        }
        assert(results@.take(i as int) =~= results@);
        let mut kept: Vec<DetectionResult> = Vec::new();
        let mut occupied: Vec<(Point, u32)> = Vec::new();
        let mut i: usize = 0;
        while i < sorted.len()
            invariant
                i <= sorted@.len(),
                kept@ == keep_separated(self.templates@, sorted@.take(i as int)),
                occupied@.len() == kept@.len(),
                forall|j: int|
                    0 <= j < kept@.len() ==> (#[trigger] occupied@[j]).0 == kept@[j].location
                        && occupied@[j].1 as int == separation(self.templates@, kept@[j]),
            decreases sorted@.len() - i,
        {
            let d = copy_detection(&sorted[i]);
            let close = near_any(&occupied, d.location);
            proof {
                assert(sorted@.take(i + 1).drop_last() =~= sorted@.take(i as int));
                assert(sorted@.take(i + 1).last() == d);
                if close {
                    let j = choose|j: int|
                        0 <= j < occupied@.len() && dist2((#[trigger] occupied@[j]).0, d.location)
                            < occupied@[j].1 * occupied@[j].1;
                    assert(dist2(kept@[j].location, d.location) < separation(self.templates@, kept@[j]) * separation(self.templates@, kept@[j]));
                } else {
                    assert forall|j: int| 0 <= j < kept@.len() implies !(dist2(#[trigger] kept@[j].location, d.location) < separation(self.templates@, kept@[j]) * separation(self.templates@, kept@[j])) by {
                        assert(occupied@[j].0 == kept@[j].location);
                    }
                }
            }
            if !close {
                match self.find_template(d.object_name.as_str()) {
                    Some(ti) => {
                        let md = self.templates[ti].min_distance;
                        occupied.push((d.location, md));
                        kept.push(d);
                    },
                    None => {},
                }
            }
            i = i + 1;
        }
        assert(sorted@.take(i as int) =~= sorted@);
        kept
    }

    /// Ends a frame: adapts the active range to the levels of all raw detections, and
    /// returns them deduplicated.
    pub fn finish_frame(&mut self, detections: Vec<DetectionResult>) -> (r: Vec<DetectionResult>)
        requires
            old(self).wf(),
        ensures
            final(self).wf(),
            final(self).templates == old(self).templates,
            final(self).base_scale_factor == old(self).base_scale_factor,
            (final(self).range(), final(self).full_range) == next_range(
                old(self).names(),
                old(self).range(),
                old(self).full_range,
                levels_of(detections@),
            ),
            r@ == deduplicated(old(self).templates@, detections@),
    {
        let mut levels: Vec<u32> = Vec::new();
        let mut i: usize = 0;
        while i < detections.len()
            invariant
                i <= detections@.len(),
                levels@ == levels_of(detections@.take(i as int)),
            decreases detections@.len() - i,
        {
            let v = name_level_of(detections[i].object_name.as_str());
            levels.push(v);
            i = i + 1;
            assert(levels@ =~= levels_of(detections@.take(i as int)));
        }
        assert(detections@.take(i as int) =~= detections@);
        self.update_active_range(levels.as_slice());
        self.filter_close_detections(detections)
    }

    /// The index of the first template named `name`.
    pub fn find_template(&self, name: &str) -> (r: Option<usize>)
        ensures
            match r {
                Some(i) => i < self.templates@.len() && first_named(self.templates@, name@) == Some(
                    i as int,
                ),
                None => first_named(self.templates@, name@) is None,
            },
    {
        let target = String::from_str(name);
        let mut i: usize = 0;
        while i < self.templates.len()
            invariant
                i <= self.templates@.len(),
                target@ == name@,
                first_named(self.templates@.take(i as int), name@) is None,
            decreases self.templates@.len() - i,
        {
            assert(self.templates@.take(i + 1).drop_last() =~= self.templates@.take(i as int));
            if self.templates[i].name == target {
                proof {
                    lemma_first_named_prefix(self.templates@, name@, i as int + 1);
                }
                return Some(i);
            }
            i = i + 1;
        }
        assert(self.templates@.take(i as int) =~= self.templates@);
        None
    }

    /// The indices of the templates to search in this frame: every always-active template,
    /// then the others within the active range, each in store order.
    pub fn get_active_templates(&self) -> (r: Vec<usize>)
        requires
            self.wf(),
        ensures
            r@ == self.active_indices(),
    {
        let n = self.templates.len();
        let mut r: Vec<usize> = Vec::new();
        let mut i: usize = 0;
        while i < n
            invariant
                n == self.templates@.len(),
                i <= n,
                r@ == always_upto(self.flags(), i as int),
            decreases n - i,
        {
            if self.templates[i].always_active {
                r.push(i);
            }
            i = i + 1;
        }
        let ghost head = r@;
        let (start, end) = self.active_range;
        let mut i: usize = 0;
        while i < n
            invariant
                n == self.templates@.len(),
                i <= n,
                start == self.range().0,
                end == self.range().1,
                head == always_upto(self.flags(), n as int),
                r@ == head + ranged_upto(self.flags(), start as int, end as int, i as int),
            decreases n - i,
        {
            if !self.templates[i].always_active && start <= i && i <= end {
                r.push(i);
                assert(r@ =~= head + ranged_upto(self.flags(), start as int, end as int, i + 1));
            }
            i = i + 1;
        }
        r
    }
}

proof fn lemma_first_in_band(names: Seq<Seq<char>>, lo: int, hi: int)
    ensures
        match first_in_band(names, lo, hi) {
            Some(a) => 0 <= a < names.len() && in_band(names[a], lo, hi) && forall|i: int|
                0 <= i < a ==> !in_band(#[trigger] names[i], lo, hi),
            None => forall|i: int| 0 <= i < names.len() ==> !in_band(#[trigger] names[i], lo, hi),
        },
    decreases names.len(),
{
    if names.len() > 0 {
        let t = names.drop_last();
        lemma_first_in_band(t, lo, hi);
        assert forall|i: int| 0 <= i < t.len() implies t[i] == names[i] by {}
    }
}

proof fn lemma_last_in_band(names: Seq<Seq<char>>, lo: int, hi: int)
    ensures
        match last_in_band(names, lo, hi) {
            Some(b) => 0 <= b < names.len() && in_band(names[b], lo, hi) && forall|i: int|
                b < i < names.len() ==> !in_band(#[trigger] names[i], lo, hi),
            None => forall|i: int| 0 <= i < names.len() ==> !in_band(#[trigger] names[i], lo, hi),
        },
    decreases names.len(),
{
    if names.len() > 0 {
        let t = names.drop_last();
        lemma_last_in_band(t, lo, hi);
        assert forall|i: int| 0 <= i < t.len() implies t[i] == names[i] by {}
    }
}

/// The lowest and highest of a non-empty list of levels.
pub(crate) fn min_max(levels: &[u32]) -> (r: (u32, u32))
    requires
        levels@.len() > 0,
    ensures
        r.0 == min_of(levels@),
        r.1 == max_of(levels@),
{
    let mut mn = levels[0];
    let mut mx = levels[0];
    let mut i: usize = 1;
    assert(levels@.take(1).len() == 1);
    while i < levels.len()
        invariant
            1 <= i <= levels@.len(),
            mn == min_of(levels@.take(i as int)),
            mx == max_of(levels@.take(i as int)),
        decreases levels@.len() - i,
    {
        let v = levels[i];
        assert(levels@.take(i + 1).drop_last() =~= levels@.take(i as int));
        if v < mn {
            mn = v;
        }
        if v > mx {
            mx = v;
        }
        i = i + 1;
    }
    assert(levels@.take(i as int) =~= levels@);
    (mn, mx)
}

/// Two detections of known templates: the less confident one survives deduplication
/// exactly when it lies at least the separation distance of the more confident one's
/// template away from it, whatever order they come in.
pub proof fn lemma_suppression_radius(ts: Seq<ObjectTemplate>, a: DetectionResult, b: DetectionResult)
    requires
        a.confidence > b.confidence,
        first_named(ts, a.object_name@) is Some,
        first_named(ts, b.object_name@) is Some,
    ensures
        deduplicated(ts, seq![a, b]) == deduplicated(ts, seq![b, a]),
        deduplicated(ts, seq![a, b]) == if dist2(a.location, b.location) < separation(ts, a)
            * separation(ts, a) {
            seq![a]
        } else {
            seq![a, b]
        },
{
    let e = Seq::<DetectionResult>::empty();
    assert(seq![a, b].drop_last() =~= seq![a]);
    assert(seq![b, a].drop_last() =~= seq![b]);
    assert(seq![a].drop_last() =~= e);
    assert(seq![b].drop_last() =~= e);
    assert(sort_desc(e) =~= e);
    assert(seq![a].last() == a);
    assert(seq![b].last() == b);
    assert(insert_desc(e, a) =~= seq![a]);
    assert(insert_desc(e, b) =~= seq![b]);
    assert(sort_desc(seq![a]) == insert_desc(sort_desc(e), a));
    assert(sort_desc(seq![b]) == insert_desc(sort_desc(e), b));
    assert(insert_desc(seq![a], b) =~= seq![a, b]);
    assert(insert_desc(seq![b], a) == insert_desc(e, a).push(b));
    assert(insert_desc(e, a) =~= seq![a]);
    assert(seq![a].push(b) =~= seq![a, b]);
    let s = seq![a, b];
    assert(sort_desc(s) =~= s);
    assert(sort_desc(seq![b, a]) =~= s);
    assert(s.drop_last() =~= seq![a]);
    assert(keep_separated(ts, e) =~= e);
    assert(!too_close(ts, e, a.location));
    assert(keep_separated(ts, seq![a]) =~= seq![a]);
    let close = dist2(a.location, b.location) < separation(ts, a) * separation(ts, a);
    if close {
        assert(seq![a][0] == a);
        assert(too_close(ts, seq![a], b.location));
    } else {
        assert(!too_close(ts, seq![a], b.location));
        assert(seq![a].push(b) =~= s);
    }
}

/// Matching is deterministic: on one surface, any two results that meet the contract of
/// `detections_from_surface` hold the same names, locations and confidences, in order.
pub proof fn lemma_detections_deterministic(
    sf: &ScoreSurface,
    threshold: int,
    fw: int,
    fh: int,
    name: Seq<char>,
    s: Scale,
    r1: Seq<DetectionResult>,
    r2: Seq<DetectionResult>,
    ps1: Seq<Peak>,
    ps2: Seq<Peak>,
)
    requires
        found_peaks(sf, threshold, fw, fh, ps1) && reports_all(r1, name, ps1, s),
        found_peaks(sf, threshold, fw, fh, ps2) && reports_all(r2, name, ps2, s),
    ensures
        r1.len() == r2.len(),
        forall|k: int|
            0 <= k < r1.len() ==> (#[trigger] r1[k]).object_name@ == r2[k].object_name@
                && r1[k].location == r2[k].location && r1[k].confidence == r2[k].confidence,
{
    if fw != 0 && fh != 0 {
        crate::peaks::lemma_peaks_unique(sf, threshold, fw, fh, ps1, ps2);
    }
    assert forall|k: int| 0 <= k < r1.len() implies (#[trigger] r1[k]).object_name@ == r2[k].object_name@
        && r1[k].location == r2[k].location && r1[k].confidence == r2[k].confidence by {
        assert(reports(r1[k], name, ps1[k], s));
        assert(reports(r2[k], name, ps2[k], s));
    }
}

/// Whether `loc` lies within the distance of one of the `occupied` points.
fn near_any(occupied: &Vec<(Point, u32)>, loc: Point) -> (r: bool)
    ensures
        r == exists|j: int|
            0 <= j < occupied@.len() && dist2((#[trigger] occupied@[j]).0, loc) < occupied@[j].1
                * occupied@[j].1,
{
    let mut j: usize = 0;
    while j < occupied.len()
        invariant
            j <= occupied@.len(),
            forall|k: int|
                0 <= k < j ==> !(dist2((#[trigger] occupied@[k]).0, loc) < occupied@[k].1
                    * occupied@[k].1),
        decreases occupied@.len() - j,
    {
        let (c, md) = occupied[j];
        let dx = c.x as i128 - loc.x as i128;
        let dy = c.y as i128 - loc.y as i128;
        proof {
            assert(0 <= dx * dx <= 0x1_0000_0000 * 0x1_0000_0000) by (nonlinear_arith)
                requires
                    -0x1_0000_0000 <= dx <= 0x1_0000_0000,
            ;
            assert(0 <= dy * dy <= 0x1_0000_0000 * 0x1_0000_0000) by (nonlinear_arith)
                requires
                    -0x1_0000_0000 <= dy <= 0x1_0000_0000,
            ;
            assert(0 <= md * md <= 0x1_0000_0000 * 0x1_0000_0000) by (nonlinear_arith)
                requires
                    0 <= md <= 0x1_0000_0000,
            ;
        }
        let d2 = dx * dx + dy * dy;
        let m2 = md as i128 * md as i128;
        if d2 < m2 {
            return true;
        }
        j = j + 1;
    }
    false
}

pub(crate) proof fn lemma_first_named_bounds(ts: Seq<ObjectTemplate>, name: Seq<char>)
    ensures
        match first_named(ts, name) {
            Some(i) => 0 <= i < ts.len() && ts[i].name@ == name,
            None => forall|i: int| 0 <= i < ts.len() ==> (#[trigger] ts[i]).name@ != name,
        },
    decreases ts.len(),
{
    if ts.len() > 0 {
        let t = ts.drop_last();
        lemma_first_named_bounds(t, name);
        assert forall|i: int| 0 <= i < t.len() implies t[i] == ts[i] by {}
    }
}

pub(crate) proof fn lemma_first_named_prefix(ts: Seq<ObjectTemplate>, name: Seq<char>, k: int)
    requires
        0 < k <= ts.len(),
        first_named(ts.take(k - 1), name) is None,
        ts[k - 1].name@ == name,
    ensures
        first_named(ts, name) == Some(k - 1),
    decreases ts.len(),
{
    if ts.len() == k {
        assert(ts.drop_last() =~= ts.take(k - 1));
    } else {
        assert(ts.drop_last().take(k) =~= ts.take(k));
        assert(ts.drop_last().take(k - 1) =~= ts.take(k - 1));
        lemma_first_named_prefix(ts.drop_last(), name, k);
    }
}

} // verus!
