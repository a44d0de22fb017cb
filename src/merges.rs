//! Planning barrel merges: which equal barrels to drag onto each other, and the barrels
//! that remain once a round of merges is done.
use vstd::prelude::*;
use crate::detector::{DetectionResult, ObjectDetector, first_named};
use crate::text::{chars_of, name_level, name_level_of};

verus! {

pub open spec fn digit_char(d: nat) -> char {
    (d + 48) as char
}

/// The decimal digits of `n`, without leading zeros.
pub open spec fn decimal(n: nat) -> Seq<char>
    decreases n,
{
    if n < 10 {
        seq![digit_char(n)]
    } else {
        decimal(n / 10).push(digit_char(n % 10))
    }
}

/// The name of the barrel template of level `n`, as in `Barrel 7`.
pub open spec fn barrel_name(n: nat) -> Seq<char> {
    "Barrel "@ + decimal(n)
}

/// Whether barrels `i` and `j` can merge: same template, and a template exists for the
/// barrel of the next level.
pub open spec fn mergeable(ts: Seq<crate::template::ObjectTemplate>, b: Seq<DetectionResult>, i: int, j: int) -> bool {
    let name = b[i].object_name@;
    &&& name == b[j].object_name@
    &&& name_level(name) < u32::MAX
    &&& first_named(ts, barrel_name(name_level(name) as nat + 1)) is Some
}

/// The first barrel from `j` on that is not `used` and can merge with barrel `i`.
pub open spec fn partner(
    ts: Seq<crate::template::ObjectTemplate>,
    b: Seq<DetectionResult>,
    used: Seq<bool>,
    i: int,
    j: int,
) -> Option<int>
    decreases b.len() - j,
{
    if j < 0 || j >= b.len() {
        None
    } else if !used[j] && mergeable(ts, b, i, j) {
        Some(j)
    } else {
        partner(ts, b, used, i, j + 1)
    }
}

/// The merges found walking the barrels from `i` on: each barrel not yet `used` is paired
/// with its first partner after it, and both become used. Each merge is the two indices
/// and the level of the barrel they make.
pub open spec fn plan_from(
    ts: Seq<crate::template::ObjectTemplate>,
    b: Seq<DetectionResult>,
    used: Seq<bool>,
    i: int,
) -> Seq<(usize, usize, u32)>
    decreases b.len() - i,
{
    if i < 0 || i >= b.len() {
        Seq::empty()
    } else if used[i] {
        plan_from(ts, b, used, i + 1)
    } else {
        match partner(ts, b, used, i, i + 1) {
            Some(j) => seq![(i as usize, j as usize, (name_level(b[i].object_name@) + 1) as u32)]
                + plan_from(ts, b, used.update(i, true).update(j, true), i + 1),
            None => plan_from(ts, b, used, i + 1),
        }
    }
}

/// The merges of one round over the barrels `b`.
pub open spec fn merge_plan(ts: Seq<crate::template::ObjectTemplate>, b: Seq<DetectionResult>) -> Seq<(usize, usize, u32)> {
    plan_from(ts, b, Seq::new(b.len(), |k: int| false), 0)
}

/// Whether barrel `k` takes part in one of the merges `p`.
pub open spec fn in_plan(p: Seq<(usize, usize, u32)>, k: int) -> bool {
    exists|m: int| 0 <= m < p.len() && ((#[trigger] p[m]).0 == k || p[m].1 == k)
}

/// The barrels of `b` below `k` that take part in none of the merges `p`, in order.
pub open spec fn unmerged(b: Seq<DetectionResult>, p: Seq<(usize, usize, u32)>, k: int) -> Seq<DetectionResult>
    decreases k,
{
    if k <= 0 {
        Seq::empty()
    } else if in_plan(p, k - 1) {
        unmerged(b, p, k - 1)
    } else {
        unmerged(b, p, k - 1).push(b[k - 1])
    }
}

/// Whether `d` is the barrel that merge `m` of `b` makes: the next level, where the
/// second barrel stood, with its confidence.
pub open spec fn is_merged(d: DetectionResult, b: Seq<DetectionResult>, m: (usize, usize, u32)) -> bool {
    &&& d.object_name@ == barrel_name(m.2 as nat)
    &&& d.location == b[m.1 as int].location
    &&& d.confidence == b[m.1 as int].confidence
}

/// How many of `ls` equal `v`.
pub open spec fn count_level(ls: Seq<u32>, v: int) -> nat
    decreases ls.len(),
{
    if ls.len() == 0 {
        0
    } else {
        count_level(ls.drop_last(), v) + if ls.last() == v {
            1nat
        } else {
            0nat
        }
    }
}

/// Merges still needed walking down from `level` to `lo`, when `needed` barrels of
/// `level` are wanted and `merges` have been counted: where `level` has enough barrels,
/// half of `needed`; else half of what it has, and twice the shortfall is wanted of the
/// level below; whatever is still wanted below `lo` is made by merging, half of it.
/// `None` where a count leaves 32 bits.
pub open spec fn merges_walk(ls: Seq<u32>, level: int, lo: int, needed: int, merges: int) -> Option<int>
    decreases level - lo + 1,
{
    if needed > u32::MAX || merges > u32::MAX {
        None
    } else if level < lo {
        if merges + needed / 2 > u32::MAX {
            None
        } else {
            Some(merges + needed / 2)
        }
    } else {
        let avail = count_level(ls, level) as int;
        if avail > u32::MAX {
            None
        } else if avail >= needed {
            if merges + needed / 2 > u32::MAX {
                None
            } else {
                Some(merges + needed / 2)
            }
        } else {
            merges_walk(ls, level - 1, lo, (needed - avail) * 2, merges + avail / 2)
        }
    }
}

/// The level of each barrel's name.
pub open spec fn barrel_levels(b: Seq<DetectionResult>) -> Seq<u32> {
    b.map_values(|d: DetectionResult| name_level(d.object_name@))
}

/// The lowest and highest barrel level, and the merges needed to make one barrel of the
/// level above the highest, starting from two of the highest; `None` where a count
/// leaves 32 bits.
pub open spec fn required_merges(b: Seq<DetectionResult>) -> Option<(u32, u32, u32)> {
    let ls = barrel_levels(b);
    let lo = if ls.len() == 0 { 0 } else { crate::detector::min_of(ls) };
    let hi = if ls.len() == 0 { 0 } else { crate::detector::max_of(ls) };
    match merges_walk(ls, hi, lo, 2, 0) {
        Some(m) => Some((lo as u32, hi as u32, m as u32)),
        None => None,
    }
}

fn count_of_level(ls: &Vec<u32>, v: u32) -> (r: u64)
    ensures
        r == count_level(ls@, v as int),
{
    let mut c: u64 = 0;
    let mut i: usize = 0;
    while i < ls.len()
        invariant
            i <= ls@.len(),
            c == count_level(ls@.take(i as int), v as int),
            c <= i,
        decreases ls@.len() - i,
    {
        assert(ls@.take(i + 1).drop_last() =~= ls@.take(i as int));
        if ls[i] == v {
            c = c + 1;
        }
        i = i + 1;
    }
    assert(ls@.take(i as int) =~= ls@);
    c
}

/// The lowest and highest level among `barrels`, and how many merges make one barrel of
/// the next level up from two of the highest, using the lower levels' barrels where the
/// higher run short. `None` where a count leaves 32 bits.
pub fn calculate_required_merges(barrels: &[DetectionResult]) -> (r: Option<(u32, u32, u32)>)
    ensures
        r == required_merges(barrels@),
{
    let mut ls: Vec<u32> = Vec::new();
    let mut i: usize = 0;
    while i < barrels.len()
        invariant
            i <= barrels@.len(),
            ls@ == barrel_levels(barrels@.take(i as int)),
        decreases barrels@.len() - i,
    {
        ls.push(name_level_of(barrels[i].object_name.as_str()));
        i = i + 1;
        assert(ls@ =~= barrel_levels(barrels@.take(i as int)));
    }
    assert(barrels@.take(i as int) =~= barrels@);
    let (lo, hi) = if ls.len() == 0 {
        (0u32, 0u32)
    } else {
        crate::detector::min_max(ls.as_slice())
    };
    let mut level: i64 = hi as i64;
    let mut needed: u64 = 2;
    let mut merges: u64 = 0;
    while level >= lo as i64
        invariant
            ls@ == barrel_levels(barrels@),
            lo as i64 - 1 <= level <= hi,
            required_merges(barrels@) == match merges_walk(ls@, level as int, lo as int, needed as int, merges as int) {
                Some(m) => Some((lo, hi, m as u32)),
                None => None,
            },
        decreases level - lo as i64 + 1,
    {
        if needed > u32::MAX as u64 || merges > u32::MAX as u64 {
            return None;
        }
        let avail = count_of_level(&ls, level as u32);
        if avail > u32::MAX as u64 {
            return None;
        }
        if avail >= needed {
            if merges + needed / 2 > u32::MAX as u64 {
                return None;
            }
            return Some((lo, hi, (merges + needed / 2) as u32));
        }
        needed = (needed - avail) * 2;
        merges = merges + avail / 2;
        level = level - 1;
    }
    if needed > u32::MAX as u64 || merges > u32::MAX as u64 || merges + needed / 2 > u32::MAX as u64 {
        return None;
    }
    Some((lo, hi, (merges + needed / 2) as u32))
}

/// The decimal digits of `n`.
pub fn decimal_chars(n: u64) -> (r: Vec<char>)
    ensures
        r@ == decimal(n as nat),
    decreases n,
{
    if n < 10 {
        let mut v: Vec<char> = Vec::new();
        v.push(((n as u8) + 48u8) as char);
        v
    } else {
        let mut v = decimal_chars(n / 10);
        v.push((((n % 10) as u8) + 48u8) as char);
        v
    }
}

fn same_chars(a: &Vec<char>, b: &Vec<char>) -> (r: bool)
    ensures
        r == (a@ == b@),
{
    if a.len() != b.len() {
        return false;
    }
    let mut i: usize = 0;
    while i < a.len()
        invariant
            a@.len() == b@.len(),
            i <= a@.len(),
            forall|k: int| 0 <= k < i ==> a@[k] == b@[k],
        decreases a@.len() - i,
    {
        if a[i] != b[i] {
            return false;
        }
        i = i + 1;
    }
    assert(a@ =~= b@);
    true
}

impl ObjectDetector {
    /// The index of the first template named `Barrel <level>`.
    pub fn find_barrel_template(&self, level: u64) -> (r: Option<usize>)
        ensures
            match r {
                Some(i) => i < self.templates@.len() && first_named(self.templates@, barrel_name(level as nat)) == Some(i as int),
                None => first_named(self.templates@, barrel_name(level as nat)) is None,
            },
    {
        let mut want = chars_of("Barrel ");
        let digits = decimal_chars(level);
        let mut k: usize = 0;
        let ghost prefix = want@;
        while k < digits.len()
            invariant
                k <= digits@.len(),
                want@ == prefix + digits@.take(k as int),
            decreases digits@.len() - k,
        {
            want.push(digits[k]);
            k = k + 1;
            assert(want@ =~= prefix + digits@.take(k as int));
        }
        assert(digits@.take(k as int) =~= digits@);
        let n = self.templates.len();
        let mut i: usize = 0;
        while i < n
            invariant
                n == self.templates@.len(),
                i <= n,
                want@ == barrel_name(level as nat),
                first_named(self.templates@.take(i as int), want@) is None,
            decreases n - i,
        {
            assert(self.templates@.take(i + 1).drop_last() =~= self.templates@.take(i as int));
            let name = chars_of(self.templates[i].name.as_str());
            if same_chars(&name, &want) {
                proof {
                    crate::detector::lemma_first_named_prefix(self.templates@, want@, i as int + 1);
                }
                return Some(i);
            }
            i = i + 1;
        }
        assert(self.templates@.take(i as int) =~= self.templates@);
        None
    }

    /// The first barrel after `i` that is not `used` and can merge with barrel `i`.
    fn find_partner(&self, barrels: &Vec<DetectionResult>, used: &Vec<bool>, i: usize) -> (r: Option<usize>)
        requires
            i < barrels@.len(),
            used@.len() == barrels@.len(),
        ensures
            match r {
                Some(j) => partner(self.templates@, barrels@, used@, i as int, i + 1) == Some(j as int),
                None => partner(self.templates@, barrels@, used@, i as int, i + 1) is None,
            },
    {
        let n = barrels.len();
        let level = name_level_of(barrels[i].object_name.as_str());
        let has_next = if level < u32::MAX {
            self.find_barrel_template(level as u64 + 1).is_some()
        } else {
            false
        };
        let mut j = i + 1;
        while j < n
            invariant
                n == barrels@.len(),
                used@.len() == n,
                i < j <= n,
                level == name_level(barrels@[i as int].object_name@),
                has_next == (level < u32::MAX && first_named(self.templates@, barrel_name(level as nat + 1)) is Some),
                partner(self.templates@, barrels@, used@, i as int, i + 1) == partner(self.templates@, barrels@, used@, i as int, j as int),
            decreases n - j,
        {
            if !used[j] && has_next && barrels[i].object_name == barrels[j].object_name {
                return Some(j);
            }
            j = j + 1;
        }
        None
    }

    /// One round of merges over `barrels`: the merges to perform, each the indices of the
    /// barrel dragged and the barrel dropped on, and the level made; and the barrels
    /// after the round: the merged ones (last merge first), then those left alone.
    pub fn plan_merges(&self, barrels: &Vec<DetectionResult>) -> (r: (Vec<(usize, usize, u32)>, Vec<DetectionResult>))
        ensures
            r.0@ == merge_plan(self.templates@, barrels@),
            r.1@.len() == r.0@.len() + unmerged(barrels@, r.0@, barrels@.len() as int).len(),
            forall|m: int|
                0 <= m < r.0@.len() ==> #[trigger] is_merged(
                    r.1@[m],
                    barrels@,
                    r.0@[r.0@.len() - 1 - m],
                ),
            r.1@.skip(r.0@.len() as int) == unmerged(barrels@, r.0@, barrels@.len() as int),
    {
        let n = barrels.len();
        let mut used: Vec<bool> = Vec::new();
        let mut k: usize = 0;
        while k < n
            invariant
                k <= n,
                used@.len() == k,
                forall|q: int| 0 <= q < k ==> !used@[q],
            decreases n - k,
        {
            used.push(false);
            k = k + 1;
        }
        assert(used@ =~= Seq::new(n as nat, |q: int| false));
        let mut plan: Vec<(usize, usize, u32)> = Vec::new();
        let mut i: usize = 0;
        while i < n
            invariant
                n == barrels@.len(),
                used@.len() == n,
                i <= n,
                plan@ + plan_from(self.templates@, barrels@, used@, i as int) == merge_plan(self.templates@, barrels@),
                forall|m: int| 0 <= m < plan@.len() ==> (#[trigger] plan@[m]).0 < i && plan@[m].1 < n,
                forall|m: int| 0 <= m < plan@.len() ==> first_named(self.templates@, barrel_name((#[trigger] plan@[m]).2 as nat)) is Some,
                forall|q: int| 0 <= q < n ==> (#[trigger] used@[q] <==> (in_plan(plan@, q))),
            decreases n - i,
        {
            if used[i] {
                i = i + 1;
            } else {
                match self.find_partner(barrels, &used, i) {
                    Some(j) => {
                        proof {
                            lemma_partner_after(self.templates@, barrels@, used@, i as int, i + 1);
                        }
                        let level = name_level_of(barrels[i].object_name.as_str());
                        let ghost before = plan@;
                        let ghost used_before = used@;
                        plan.push((i, j, level + 1));
                        used.set(i, true);
                        used.set(j, true);
                        proof {
                            let rest = plan_from(self.templates@, barrels@, used@, i + 1);
                            assert(seq![(i, j, (level + 1) as u32)] + rest =~= plan_from(self.templates@, barrels@, used_before, i as int));
                            assert(plan@ + rest =~= before + (seq![(i, j, (level + 1) as u32)] + rest));
                            assert forall|q: int| 0 <= q < n implies (#[trigger] used@[q] <==> in_plan(plan@, q)) by {
                                if in_plan(before, q) {
                                    let m = choose|m: int| 0 <= m < before.len() && ((#[trigger] before[m]).0 == q || before[m].1 == q);
                                    assert(plan@[m] == before[m]);
                                }
                                if q == i || q == j {
                                    assert(plan@[before.len() as int] == (i, j, (level + 1) as u32));
                                }
                                if in_plan(plan@, q) {
                                    let m = choose|m: int| 0 <= m < plan@.len() && ((#[trigger] plan@[m]).0 == q || plan@[m].1 == q);
                                    if m < before.len() {
                                        assert(before[m] == plan@[m]);
                                    }
                                }
                            }
                        }
                        i = i + 1;
                    },
                    None => {
                        i = i + 1;
                    },
                }
            }
        }
        proof {
            assert(plan_from(self.templates@, barrels@, used@, i as int) =~= Seq::<(usize, usize, u32)>::empty());
            assert(plan@ =~= plan@ + Seq::<(usize, usize, u32)>::empty());
        }
        let mut out: Vec<DetectionResult> = Vec::new();
        let pn = plan.len();
        let mut m: usize = 0;
        while m < pn
            invariant
                pn == plan@.len(),
                plan@ == merge_plan(self.templates@, barrels@),
                forall|q: int| 0 <= q < pn ==> (#[trigger] plan@[q]).1 < barrels@.len(),
                forall|q: int| 0 <= q < pn ==> first_named(self.templates@, barrel_name((#[trigger] plan@[q]).2 as nat)) is Some,
                m <= pn,
                out@.len() == m,
                forall|q: int| 0 <= q < m ==> #[trigger] is_merged(out@[q], barrels@, plan@[pn - 1 - q]),
            decreases pn - m,
        {
            let (_, j, level) = plan[pn - 1 - m];
            match self.find_barrel_template(level as u64) {
                Some(t) => {
                    let d = DetectionResult {
                        object_name: self.templates[t].name.clone(),
                        location: barrels[j].location,
                        confidence: barrels[j].confidence,
                    };
                    proof {
                        crate::detector::lemma_first_named_bounds(self.templates@, barrel_name(level as nat));
                    }
                    out.push(d);
                },
                None => {
                    assert(false);
                },
            }
            m = m + 1;
        }
        let ghost head = out@;
        let mut k: usize = 0;
        while k < n
            invariant
                n == barrels@.len(),
                pn == plan@.len(),
                k <= n,
                head.len() == pn,
                out@ == head + unmerged(barrels@, plan@, k as int),
                forall|q: int| 0 <= q < n ==> (#[trigger] used@[q] <==> in_plan(plan@, q)),
                used@.len() == n,
            decreases n - k,
        {
            if !used[k] {
                let d = crate::detector::copy_detection(&barrels[k]);
                out.push(d);
            }
            k = k + 1;
            assert(out@ =~= head + unmerged(barrels@, plan@, k as int));
        }
        assert(out@.skip(pn as int) =~= unmerged(barrels@, plan@, n as int));
        (plan, out)
    }
}

proof fn lemma_partner_after(
    ts: Seq<crate::template::ObjectTemplate>,
    b: Seq<DetectionResult>,
    used: Seq<bool>,
    i: int,
    j: int,
)
    requires
        0 <= i < j,
    ensures
        match partner(ts, b, used, i, j) {
            Some(p) => j <= p < b.len() && !used[p] && mergeable(ts, b, i, p),
            None => true,
        },
    decreases b.len() - j,
{
    if j < b.len() && !(!used[j] && mergeable(ts, b, i, j)) {
        lemma_partner_after(ts, b, used, i, j + 1);
    }
}

} // verus!
