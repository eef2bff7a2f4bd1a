use vstd::prelude::*;
use vstd::string::*;

use crate::naming::{alert_id, lemma_alert_id_injective, make_alert_id};
use crate::types::{Alert, AlertView, Urgency};

verus! {

/// A metric found outside its tolerance, with the text and severity of the
/// alert that reports it.
#[derive(Debug, Clone)]
pub struct Finding {
    pub metric: String,
    pub message: String,
    pub severity: Urgency,
}

/// The mathematical content of a [`Finding`].
pub struct FindingView {
    pub metric: Seq<char>,
    pub message: Seq<char>,
    pub severity: Urgency,
}

impl View for Finding {
    type V = FindingView;

    open spec fn view(&self) -> FindingView {
        FindingView { metric: self.metric@, message: self.message@, severity: self.severity }
    }
}

/// The views of a sequence of alerts.
pub open spec fn views_of(alerts: Seq<Alert>) -> Seq<AlertView> {
    alerts.map_values(|a: Alert| a@)
}

/// The views of a sequence of findings.
pub open spec fn finding_views(findings: Seq<Finding>) -> Seq<FindingView> {
    findings.map_values(|f: Finding| f@)
}

/// The contents of a sequence of texts.
pub open spec fn text_views(texts: Seq<String>) -> Seq<Seq<char>> {
    texts.map_values(|t: String| t@)
}

/// Whether `list` holds a text equal to `t`.
fn contains_text(list: &Vec<String>, t: &String) -> (found: bool)
    ensures
        found == text_views(list@).contains(t@),
{
    let mut i: usize = 0;
    while i < list.len()
        invariant
            i <= list.len(),
            forall|j: int| 0 <= j < i ==> list@[j]@ != t@,
        decreases list.len() - i,
    {
        if list[i] == *t {
            assert(text_views(list@)[i as int] == t@);
            return true;
        }
        i = i + 1;
    }
    proof {
        if text_views(list@).contains(t@) {
            let j = choose|j: int| 0 <= j < list@.len() && text_views(list@)[j] == t@;
            assert(list@[j]@ == t@);
        }
    }
    false
}

/// The alerts that reporting `findings` at time `now` raises, numbered from
/// `first`.
pub open spec fn raised(findings: Seq<FindingView>, first: nat, now: u64) -> Seq<AlertView> {
    Seq::new(
        findings.len(),
        |i: int|
            AlertView {
                id: alert_id((first + i) as nat),
                metric: findings[i].metric,
                message: findings[i].message,
                severity: findings[i].severity,
                timestamp: now,
                acknowledged: false,
            },
    )
}

/// The newest `cap` alerts of `s`: the oldest ones are dropped first.
pub open spec fn keep_newest(s: Seq<AlertView>, cap: nat) -> Seq<AlertView> {
    if s.len() > cap {
        s.skip(s.len() - cap)
    } else {
        s
    }
}

/// The alerts nobody has acknowledged yet.
pub open spec fn active_views(s: Seq<AlertView>) -> Seq<AlertView> {
    s.filter(|a: AlertView| !a.acknowledged)
}

/// Whether an urgency calls for immediate attention.
pub open spec fn is_severe(u: Urgency) -> bool {
    u == Urgency::High || u == Urgency::Critical
}

/// The alerts of high or critical severity.
pub open spec fn severe_views(s: Seq<AlertView>) -> Seq<AlertView> {
    s.filter(|a: AlertView| is_severe(a.severity))
}

/// The alerts whose metric is not among `resolved`.
pub open spec fn unresolved_views(s: Seq<AlertView>, resolved: Seq<Seq<char>>) -> Seq<AlertView> {
    s.filter(|a: AlertView| !resolved.contains(a.metric))
}

/// `i` is the position of the first alert of `s` that carries `id`.
pub open spec fn first_with_id(s: Seq<AlertView>, id: Seq<char>, i: int) -> bool {
    &&& 0 <= i < s.len()
    &&& s[i].id == id
    &&& forall|j: int| 0 <= j < i ==> s[j].id != id
}

/// `a` marked as seen.
pub open spec fn acknowledged(a: AlertView) -> AlertView {
    AlertView { acknowledged: true, ..a }
}

/// `id` is the identifier of a serial number below `issued`.
pub open spec fn issued_id(id: Seq<char>, issued: nat) -> bool {
    exists|k: nat| k < issued && id == #[trigger] alert_id(k)
}

/// `a` and `b` are the identifiers of serial numbers, the one of `a` the
/// smaller.
pub open spec fn ids_in_order(a: Seq<char>, b: Seq<char>) -> bool {
    exists|ka: nat, kb: nat| ka < kb && a == #[trigger] alert_id(ka) && b == #[trigger] alert_id(kb)
}

/// Every alert of `s` carries the identifier of a serial number below
/// `issued`, the serial numbers increase from the oldest alert to the newest,
/// and so no two alerts share an identifier.
pub open spec fn ids_well_issued(s: Seq<AlertView>, issued: nat) -> bool {
    &&& forall|i: int| 0 <= i < s.len() ==> issued_id(#[trigger] s[i].id, issued)
    &&& forall|i: int, j: int|
        0 <= i < j < s.len() ==> ids_in_order(#[trigger] s[i].id, #[trigger] s[j].id)
    &&& forall|i: int, j: int| 0 <= i < j < s.len() ==> #[trigger] s[i].id != #[trigger] s[j].id
}

proof fn lemma_in_order_distinct(a: Seq<char>, b: Seq<char>)
    requires
        ids_in_order(a, b),
    ensures
        a != b,
{
    let (ka, kb) = choose|ka: nat, kb: nat|
        ka < kb && a == #[trigger] alert_id(ka) && b == #[trigger] alert_id(kb);
    lemma_alert_id_injective(ka, kb);
}

/// The order clause of `ids_well_issued` gives its distinctness clause.
proof fn lemma_ordered_ids_distinct(s: Seq<AlertView>)
    requires
        forall|i: int, j: int|
            0 <= i < j < s.len() ==> ids_in_order(#[trigger] s[i].id, #[trigger] s[j].id),
    ensures
        forall|i: int, j: int| 0 <= i < j < s.len() ==> #[trigger] s[i].id != #[trigger] s[j].id,
{
    assert forall|i: int, j: int| 0 <= i < j < s.len() implies #[trigger] s[i].id
        != #[trigger] s[j].id by {
        lemma_in_order_distinct(s[i].id, s[j].id);
    }
}

proof fn lemma_raised_well_issued(before: Seq<AlertView>, fs: Seq<FindingView>, start: nat, now: u64)
    requires
        ids_well_issued(before, start),
    ensures
        ids_well_issued(before + raised(fs, start, now), start + fs.len()),
{
    let s = before + raised(fs, start, now);
    let r = raised(fs, start, now);
    assert forall|i: int| 0 <= i < s.len() implies issued_id(#[trigger] s[i].id, start + fs.len()) by {
        if i >= before.len() {
            let k = (start + (i - before.len())) as nat;
            assert(s[i].id == alert_id(k));
        } else {
            assert(s[i] == before[i]);
            assert(issued_id(before[i].id, start));
            let k = choose|k: nat| k < start && before[i].id == #[trigger] alert_id(k);
            assert(s[i].id == alert_id(k));
        }
    }
    assert forall|i: int, j: int| 0 <= i < j < s.len() implies ids_in_order(
        #[trigger] s[i].id,
        #[trigger] s[j].id,
    ) by {
        if j < before.len() {
            assert(s[i] == before[i] && s[j] == before[j]);
            assert(ids_in_order(before[i].id, before[j].id));
        } else if i >= before.len() {
            let ka = (start + (i - before.len())) as nat;
            let kb = (start + (j - before.len())) as nat;
            assert(s[i].id == alert_id(ka) && s[j].id == alert_id(kb));
        } else {
            assert(s[i] == before[i]);
            assert(issued_id(before[i].id, start));
            let k = choose|k: nat| k < start && before[i].id == #[trigger] alert_id(k);
            let kb = (start + (j - before.len())) as nat;
            assert(s[i].id == alert_id(k) && s[j].id == alert_id(kb));
        }
    }
    lemma_ordered_ids_distinct(s);
}

proof fn lemma_skip_well_issued(s: Seq<AlertView>, issued: nat, d: int)
    requires
        ids_well_issued(s, issued),
        0 <= d <= s.len(),
    ensures
        ids_well_issued(s.skip(d), issued),
{
    let t = s.skip(d);
    assert forall|i: int| 0 <= i < t.len() implies issued_id(#[trigger] t[i].id, issued) by {
        assert(t[i] == s[i + d]);
    }
    assert forall|i: int, j: int| 0 <= i < j < t.len() implies ids_in_order(
        #[trigger] t[i].id,
        #[trigger] t[j].id,
    ) by {
        assert(t[i] == s[i + d] && t[j] == s[j + d]);
        assert(ids_in_order(s[i + d].id, s[j + d].id));
    }
    lemma_ordered_ids_distinct(t);
}

proof fn lemma_unresolved_well_issued(s: Seq<AlertView>, resolved: Seq<Seq<char>>, issued: nat)
    requires
        ids_well_issued(s, issued),
    ensures
        ids_well_issued(unresolved_views(s, resolved), issued),
        forall|i: int|
            0 <= i < unresolved_views(s, resolved).len() ==> s.contains(
                #[trigger] unresolved_views(s, resolved)[i],
            ),
    decreases s.len(),
{
    reveal(Seq::filter);
    if s.len() > 0 {
        let init = s.drop_last();
        assert(ids_well_issued(init, issued)) by {
            assert forall|i: int| 0 <= i < init.len() implies issued_id(
                #[trigger] init[i].id,
                issued,
            ) by {
                assert(init[i] == s[i]);
            }
            assert forall|i: int, j: int| 0 <= i < j < init.len() implies ids_in_order(
                #[trigger] init[i].id,
                #[trigger] init[j].id,
            ) by {
                assert(init[i] == s[i] && init[j] == s[j]);
                assert(ids_in_order(s[i].id, s[j].id));
            }
            lemma_ordered_ids_distinct(init);
        }
        lemma_unresolved_well_issued(init, resolved, issued);
        let sub = unresolved_views(init, resolved);
        let out = unresolved_views(s, resolved);
        assert forall|i: int| 0 <= i < sub.len() implies s.contains(#[trigger] sub[i]) by {
            let j = choose|j: int| 0 <= j < init.len() && init[j] == sub[i];
            assert(s[j] == sub[i]);
        }
        if !resolved.contains(s.last().metric) {
            assert(out =~= sub.push(s.last()));
            assert forall|i: int| 0 <= i < out.len() implies issued_id(
                #[trigger] out[i].id,
                issued,
            ) by {
                if i < sub.len() {
                    assert(out[i] == sub[i]);
                } else {
                    assert(out[i] == s[s.len() - 1]);
                }
            }
            assert forall|i: int, j: int| 0 <= i < j < out.len() implies ids_in_order(
                #[trigger] out[i].id,
                #[trigger] out[j].id,
            ) by {
                if j < sub.len() {
                    assert(out[i] == sub[i] && out[j] == sub[j]);
                    assert(ids_in_order(sub[i].id, sub[j].id));
                } else {
                    assert(out[j] == s[s.len() - 1]);
                    assert(out[i] == sub[i]);
                    let m = choose|m: int| 0 <= m < init.len() && init[m] == sub[i];
                    assert(s[m] == sub[i]);
                    assert(ids_in_order(s[m].id, s[s.len() - 1].id));
                }
            }
            lemma_ordered_ids_distinct(out);
            assert forall|i: int| 0 <= i < out.len() implies s.contains(#[trigger] out[i]) by {
                if i < sub.len() {
                    assert(out[i] == sub[i]);
                } else {
                    assert(out[i] == s[s.len() - 1]);
                }
            }
        }
    }
}

/// Keeps the alerts raised when metrics leave their tolerance, up to a
/// capacity beyond which the oldest are dropped.
#[derive(Debug, Clone)]
pub struct AlertSystem {
    pub alerts: Vec<Alert>,
    pub max_alerts: usize,
    next_id: u64,
}

impl AlertSystem {
    /// How many alert identifiers have been handed out so far.
    pub closed spec fn issued(&self) -> nat {
        self.next_id as nat
    }

    /// How many alerts the system keeps at most.
    pub closed spec fn capacity(&self) -> nat {
        self.max_alerts as nat
    }

    /// The alerts, oldest first, as views.
    pub closed spec fn alert_views(&self) -> Seq<AlertView> {
        views_of(self.alerts@)
    }

    /// Every alert carries an identifier that this system handed out, and
    /// no two alerts share one.
    pub closed spec fn wf(&self) -> bool {
        ids_well_issued(self.alert_views(), self.issued())
    }

    /// An empty alert book that keeps at most `max_alerts` alerts.
    pub fn new(max_alerts: usize) -> (s: AlertSystem)
        ensures
            s.alert_views() == Seq::<AlertView>::empty(),
            s.capacity() == max_alerts,
            s.issued() == 0,
            s.wf(),
    {
        let s = AlertSystem { alerts: Vec::new(), max_alerts, next_id: 0 };
        assert(s.alert_views() =~= Seq::<AlertView>::empty());
        s
    }

    /// What well-formedness of the book means: every alert carries an
    /// identifier handed out by the book, numbered upwards from the oldest
    /// alert to the newest.
    pub proof fn lemma_wf_meaning(&self)
        ensures
            self.wf() == ids_well_issued(self.alert_views(), self.issued()),
    {
    }

    /// The alerts, oldest first.
    pub fn alert_list(&self) -> (r: &Vec<Alert>)
        ensures
            views_of(r@) == self.alert_views(),
    {
        &self.alerts
    }

    /// How many alerts the system keeps at most.
    pub fn max_alert_count(&self) -> (n: usize)
        ensures
            n == self.capacity(),
    {
        self.max_alerts
    }

    /// How many alert identifiers this system has handed out.
    pub fn alerts_issued(&self) -> (n: u64)
        ensures
            n == self.issued(),
    {
        self.next_id
    }

    /// The alerts nobody has acknowledged yet, oldest first.
    pub fn active_alerts(&self) -> (res: Vec<&Alert>)
        ensures
            res@.map_values(|a: &Alert| a@) == active_views(self.alert_views()),
            forall|i: int|
                0 <= i < self.alert_views().len() && !self.alert_views()[i].acknowledged
                    ==> res@.map_values(|a: &Alert| a@).contains(#[trigger] self.alert_views()[i]),
            forall|j: int| 0 <= j < res@.len() ==> !(#[trigger] res@[j]).acknowledged,
    {
        let ghost all = self.alert_views();
        let mut res: Vec<&Alert> = Vec::new();
        let mut i: usize = 0;
        while i < self.alerts.len()
            invariant
                i <= self.alerts.len(),
                all == self.alert_views(),
                all.len() == self.alerts.len(),
                res@.map_values(|a: &Alert| a@) == active_views(all.take(i as int)),
            decreases self.alerts.len() - i,
        {
            proof {
                reveal(Seq::filter);
                assert(all.take(i + 1).drop_last() =~= all.take(i as int));
            }
            let a = &self.alerts[i];
            if !a.acknowledged {
                res.push(a);
            }
            i = i + 1;
            assert(res@.map_values(|a: &Alert| a@) =~= active_views(all.take(i as int)));
        }
        assert(all.take(i as int) =~= all);
        proof {
            law_active_view_is_unacknowledged(all);
            assert forall|j: int| 0 <= j < res@.len() implies !(#[trigger] res@[j]).acknowledged by {
                assert(res@.map_values(|a: &Alert| a@)[j] == res@[j]@);
            }
        }
        res
    }

    /// The alerts of high or critical severity, oldest first.
    pub fn critical_alerts(&self) -> (res: Vec<&Alert>)
        ensures
            res@.map_values(|a: &Alert| a@) == severe_views(self.alert_views()),
            forall|i: int|
                0 <= i < self.alert_views().len() && (self.alert_views()[i].severity
                    == Urgency::High || self.alert_views()[i].severity == Urgency::Critical)
                    ==> res@.map_values(|a: &Alert| a@).contains(#[trigger] self.alert_views()[i]),
            forall|j: int|
                0 <= j < res@.len() ==> (#[trigger] res@[j]).severity == Urgency::High
                    || res@[j].severity == Urgency::Critical,
    {
        let ghost all = self.alert_views();
        let mut res: Vec<&Alert> = Vec::new();
        let mut i: usize = 0;
        while i < self.alerts.len()
            invariant
                i <= self.alerts.len(),
                all == self.alert_views(),
                all.len() == self.alerts.len(),
                res@.map_values(|a: &Alert| a@) == severe_views(all.take(i as int)),
            decreases self.alerts.len() - i,
        {
            proof {
                reveal(Seq::filter);
                assert(all.take(i + 1).drop_last() =~= all.take(i as int));
            }
            let a = &self.alerts[i];
            let severe = match a.severity {
                Urgency::High | Urgency::Critical => true,
                _ => false,
            };
            if severe {
                res.push(a);
            }
            i = i + 1;
            assert(res@.map_values(|a: &Alert| a@) =~= severe_views(all.take(i as int)));
        }
        assert(all.take(i as int) =~= all);
        proof {
            law_critical_view_is_high_and_critical(all);
            assert forall|j: int| 0 <= j < res@.len() implies (#[trigger] res@[j]).severity
                == Urgency::High || res@[j].severity == Urgency::Critical by {
                assert(res@.map_values(|a: &Alert| a@)[j] == res@[j]@);
            }
        }
        res
    }

    /// Marks as seen the first alert that carries `id`; with no such alert,
    /// nothing changes.
    pub fn acknowledge(&mut self, id: &str)
        ensures
            final(self).capacity() == old(self).capacity(),
            final(self).issued() == old(self).issued(),
            forall|i: int|
                first_with_id(old(self).alert_views(), id@, i) ==> final(self).alert_views()
                    == old(self).alert_views().update(i, acknowledged(old(self).alert_views()[i])),
            (forall|i: int|
                0 <= i < old(self).alert_views().len() ==> old(self).alert_views()[i].id != id@)
                ==> final(self).alert_views() == old(self).alert_views(),
            old(self).wf() ==> final(self).wf(),
            final(self).alert_views().len() == old(self).alert_views().len(),
            forall|i: int, j: int|
                #![trigger first_with_id(old(self).alert_views(), id@, i), final(self).alert_views()[j]]
                first_with_id(old(self).alert_views(), id@, i) && 0 <= j < old(
                    self,
                ).alert_views().len() ==> {
                    let was = old(self).alert_views()[j];
                    let now = final(self).alert_views()[j];
                    &&& now.id == was.id
                    &&& now.metric == was.metric
                    &&& now.message == was.message
                    &&& now.severity == was.severity
                    &&& now.timestamp == was.timestamp
                    &&& now.acknowledged == (was.acknowledged || j == i)
                },
    {
        let target = String::from_str(id);
        let mut i: usize = 0;
        while i < self.alerts.len()
            invariant
                i <= self.alerts.len(),
                target@ == id@,
                self.alert_views() == old(self).alert_views(),
                self.max_alerts == old(self).max_alerts,
                self.next_id == old(self).next_id,
                forall|j: int| 0 <= j < i ==> self.alert_views()[j].id != id@,
            decreases self.alerts.len() - i,
        {
            if self.alerts[i].id == target {
                let ghost before = self.alert_views();
                let mut a = self.alerts.remove(i);
                a.acknowledged = true;
                self.alerts.insert(i, a);
                proof {
                    assert(first_with_id(before, id@, i as int));
                    assert(self.alert_views() =~= before.update(
                        i as int,
                        acknowledged(before[i as int]),
                    ));
                }
                return;
            }
            i = i + 1;
        }
    }

    /// Raises one alert per finding, in order, numbered on from the
    /// identifiers already handed out and stamped with the time `now`; then
    /// drops the oldest alerts while more than the capacity are kept.
    pub fn check(&mut self, findings: Vec<Finding>, now: u64)
        requires
            old(self).issued() + findings.len() <= u64::MAX,
        ensures
            final(self).alert_views() == keep_newest(
                old(self).alert_views() + raised(finding_views(findings@), old(self).issued(), now),
                old(self).capacity(),
            ),
            final(self).capacity() == old(self).capacity(),
            final(self).issued() == old(self).issued() + findings.len(),
            final(self).alert_views().len() <= final(self).capacity(),
            old(self).wf() ==> final(self).wf(),
    {
        let ghost start = self.issued();
        let ghost fs = finding_views(findings@);
        let ghost before = self.alert_views();
        let mut findings = findings;
        let ghost n = findings.len();
        let mut k: usize = 0;
        while findings.len() > 0
            invariant
                k + findings.len() == n,
                n == fs.len(),
                finding_views(findings@) == fs.skip(k as int),
                self.next_id == start + k,
                start + n <= u64::MAX,
                self.max_alerts == old(self).max_alerts,
                self.alert_views() == before + raised(fs.take(k as int), start, now),
            decreases findings.len(),
        {
            let ghost rest = findings@;
            let ghost shown = self.alert_views();
            let f = findings.remove(0);
            let id = make_alert_id(self.next_id);
            let alert = Alert::new(id, f.metric, f.message, f.severity, now);
            let ghost made = alert@;
            self.alerts.push(alert);
            self.next_id = self.next_id + 1;
            k = k + 1;
            proof {
                assert(rest[0]@ == fs.skip((k - 1) as int)[0]);
                assert forall|j: int| 0 <= j < findings@.len() implies findings@[j]@ == fs.skip(
                    k as int,
                )[j] by {
                    assert(findings@[j] == rest[j + 1]);
                    assert(rest[j + 1]@ == fs.skip((k - 1) as int)[j + 1]);
                }
                assert(finding_views(findings@) =~= fs.skip(k as int));
                assert(self.alert_views() =~= shown.push(made));
                assert(raised(fs.take(k as int), start, now) =~= raised(
                    fs.take((k - 1) as int),
                    start,
                    now,
                ).push(made));
                assert(self.alert_views() =~= before + raised(fs.take(k as int), start, now));
            }
        }
        assert(fs.take(n as int) =~= fs);
        let ghost appended = self.alert_views();
        let ghost mut dropped: int = 0;
        while self.alerts.len() > self.max_alerts
            invariant
                0 <= dropped <= appended.len(),
                self.alert_views() == appended.skip(dropped),
                self.max_alerts == old(self).max_alerts,
                self.next_id == start + n,
                self.alert_views().len() >= self.max_alerts ==> appended.len() - dropped
                    >= self.max_alerts,
                dropped > 0 ==> appended.len() - dropped >= self.max_alerts,
            decreases self.alerts.len(),
        {
            let ghost shown = self.alert_views();
            self.alerts.remove(0);
            proof {
                assert(self.alert_views() =~= shown.skip(1));
                dropped = dropped + 1;
                assert(self.alert_views() =~= appended.skip(dropped));
            }
        }
        proof {
            if appended.len() > self.max_alerts {
                assert(dropped == appended.len() - self.max_alerts);
            } else {
                assert(dropped == 0);
                assert(appended.skip(0) =~= appended);
            }
            if old(self).wf() {
                lemma_raised_well_issued(before, fs, start, now);
                lemma_skip_well_issued(appended, (start + n) as nat, dropped);
            }
        }
    }

    /// Removes the alerts of every metric in `resolved`, keeping the others
    /// in their order.
    pub fn clear_resolved(&mut self, resolved: &Vec<String>)
        ensures
            final(self).alert_views() == unresolved_views(
                old(self).alert_views(),
                text_views(resolved@),
            ),
            forall|i: int|
                0 <= i < final(self).alert_views().len() ==> !text_views(resolved@).contains(
                    #[trigger] final(self).alert_views()[i].metric,
                ),
            forall|i: int|
                0 <= i < old(self).alert_views().len() && !text_views(resolved@).contains(
                    old(self).alert_views()[i].metric,
                ) ==> final(self).alert_views().contains(#[trigger] old(self).alert_views()[i]),
            final(self).capacity() == old(self).capacity(),
            final(self).issued() == old(self).issued(),
            old(self).wf() ==> final(self).wf(),
    {
        let ghost all = self.alert_views();
        let ghost names = text_views(resolved@);
        let mut pending: Vec<Alert> = Vec::new();
        std::mem::swap(&mut pending, &mut self.alerts);
        let ghost n = pending.len();
        let mut k: usize = 0;
        while pending.len() > 0
            invariant
                k + pending.len() == n,
                n == all.len(),
                views_of(pending@) == all.skip(k as int),
                self.alert_views() == unresolved_views(all.take(k as int), names),
                names == text_views(resolved@),
                self.max_alerts == old(self).max_alerts,
                self.next_id == old(self).next_id,
            decreases pending.len(),
        {
            let ghost rest = pending@;
            let ghost shown = self.alert_views();
            let a = pending.remove(0);
            let drop = contains_text(resolved, &a.metric);
            let ghost seen = a@;
            if !drop {
                self.alerts.push(a);
            }
            k = k + 1;
            proof {
                reveal(Seq::filter);
                assert(seen == all[k - 1]) by {
                    assert(rest[0]@ == all.skip((k - 1) as int)[0]);
                }
                assert forall|j: int| 0 <= j < pending@.len() implies pending@[j]@ == all.skip(
                    k as int,
                )[j] by {
                    assert(pending@[j] == rest[j + 1]);
                    assert(rest[j + 1]@ == all.skip((k - 1) as int)[j + 1]);
                }
                assert(views_of(pending@) =~= all.skip(k as int));
                assert(all.take(k as int).drop_last() =~= all.take((k - 1) as int));
                if !drop {
                    assert(self.alert_views() =~= shown.push(seen));
                } else {
                    assert(self.alert_views() =~= shown);
                }
            }
        }
        proof {
            assert(all.take(n as int) =~= all);
            let out = self.alert_views();
            let keep = |a: AlertView| !names.contains(a.metric);
            assert forall|i: int| 0 <= i < out.len() implies !names.contains(
                #[trigger] out[i].metric,
            ) by {
                all.lemma_filter_pred(keep, i);
            }
            assert forall|i: int|
                0 <= i < all.len() && !names.contains(all[i].metric) implies out.contains(
                #[trigger] all[i],
            ) by {
                all.lemma_filter_contains(keep, i);
            }
            if old(self).wf() {
                lemma_unresolved_well_issued(all, names, self.next_id as nat);
            }
        }
    }
}

/// An acknowledged alert no longer shows among the active ones: when the
/// alerts carry distinct identifiers and `i` is the alert that carries `id`,
/// no active alert carries `id` once that alert is acknowledged.
pub proof fn law_acknowledged_alert_leaves_active(s: Seq<AlertView>, id: Seq<char>, i: int)
    requires
        forall|a: int, b: int| 0 <= a < b < s.len() ==> #[trigger] s[a].id != #[trigger] s[b].id,
        first_with_id(s, id, i),
    ensures
        forall|j: int|
            0 <= j < active_views(s.update(i, acknowledged(s[i]))).len() ==> (#[trigger] active_views(
                s.update(i, acknowledged(s[i])),
            )[j]).id != id,
{
    let t = s.update(i, acknowledged(s[i]));
    let pred = |a: AlertView| !a.acknowledged;
    assert forall|j: int| 0 <= j < active_views(t).len() implies (#[trigger] active_views(t)[j]).id
        != id by {
        t.lemma_filter_pred(pred, j);
        lemma_filter_member(t, pred, j);
        let m = choose|m: int| 0 <= m < t.len() && t[m] == active_views(t)[j];
        if m != i {
            assert(t[m] == s[m]);
            if m < i {
                assert(s[m].id != id);
            } else {
                assert(s[i].id != s[m].id);
            }
        }
    }
}

/// Every alert that a check raises is active until it is acknowledged.
pub proof fn law_raised_alerts_are_active(findings: Seq<FindingView>, first: nat, now: u64)
    ensures
        active_views(raised(findings, first, now)) == raised(findings, first, now),
    decreases findings.len(),
{
    reveal(Seq::filter);
    let r = raised(findings, first, now);
    if findings.len() > 0 {
        let init = findings.drop_last();
        law_raised_alerts_are_active(init, first, now);
        assert(r.drop_last() =~= raised(init, first, now));
        assert(r =~= raised(init, first, now).push(r.last()));
    } else {
        assert(r =~= Seq::<AlertView>::empty());
    }
}

/// Keeping within a capacity keeps the newest alerts: as many as the
/// capacity allows, the last ones of the book, in their order.
pub proof fn law_capacity_keeps_newest(s: Seq<AlertView>, cap: nat)
    ensures
        keep_newest(s, cap).len() == if s.len() <= cap { s.len() } else { cap },
        forall|i: int|
            0 <= i < keep_newest(s, cap).len() ==> #[trigger] keep_newest(s, cap)[i] == s[s.len()
                - keep_newest(s, cap).len() + i],
{
}

/// A check raises one alert per finding, in the order of the findings: the
/// alert carries the finding's metric, message and severity, the time of the
/// check, the next identifier in turn, and is not yet acknowledged.
pub proof fn law_raised_alerts_report_findings(findings: Seq<FindingView>, first: nat, now: u64)
    ensures
        raised(findings, first, now).len() == findings.len(),
        forall|i: int|
            0 <= i < findings.len() ==> {
                let a = #[trigger] raised(findings, first, now)[i];
                &&& a.id == alert_id((first + i) as nat)
                &&& a.metric == findings[i].metric
                &&& a.message == findings[i].message
                &&& a.severity == findings[i].severity
                &&& a.timestamp == now
                &&& !a.acknowledged
            },
{
}

/// Clearing resolved metrics leaves no alert of a resolved metric and keeps
/// every alert of the others.
pub proof fn law_unresolved_view(s: Seq<AlertView>, resolved: Seq<Seq<char>>)
    ensures
        forall|i: int|
            0 <= i < s.len() && !resolved.contains(s[i].metric) ==> unresolved_views(
                s,
                resolved,
            ).contains(#[trigger] s[i]),
        forall|j: int|
            0 <= j < unresolved_views(s, resolved).len() ==> !resolved.contains(
                (#[trigger] unresolved_views(s, resolved)[j]).metric,
            ),
{
    let pred = |a: AlertView| !resolved.contains(a.metric);
    assert forall|i: int| 0 <= i < s.len() && !resolved.contains(s[i].metric) implies unresolved_views(
        s,
        resolved,
    ).contains(#[trigger] s[i]) by {
        s.lemma_filter_contains(pred, i);
    }
    assert forall|j: int| 0 <= j < unresolved_views(s, resolved).len() implies !resolved.contains(
        (#[trigger] unresolved_views(s, resolved)[j]).metric,
    ) by {
        s.lemma_filter_pred(pred, j);
    }
}

/// The alert that an acknowledgement marks is determined: at most one
/// position is the first to carry an identifier, and there is one whenever
/// some alert carries it.
pub proof fn law_first_with_id_determined(s: Seq<AlertView>, id: Seq<char>, i: int, j: int)
    ensures
        first_with_id(s, id, i) && first_with_id(s, id, j) ==> i == j,
        first_with_id(s, id, i) ==> s[i].id == id,
        (exists|k: int| 0 <= k < s.len() && s[k].id == id) ==> exists|k: int|
            first_with_id(s, id, k),
{
    if exists|k: int| 0 <= k < s.len() && s[k].id == id {
        let k = choose|k: int| 0 <= k < s.len() && s[k].id == id;
        lemma_first_with_id_below(s, id, k);
    }
}

proof fn lemma_first_with_id_below(s: Seq<AlertView>, id: Seq<char>, k: int)
    requires
        0 <= k < s.len(),
        s[k].id == id,
    ensures
        exists|m: int| first_with_id(s, id, m),
    decreases k,
{
    if exists|j: int| 0 <= j < k && s[j].id == id {
        let j = choose|j: int| 0 <= j < k && s[j].id == id;
        lemma_first_with_id_below(s, id, j);
    } else {
        assert(first_with_id(s, id, k));
    }
}

/// Acknowledging an alert sets its flag and changes nothing else of it: its
/// identifier, metric, message, severity and timestamp stay as they were.
pub proof fn law_acknowledging_changes_only_the_flag(a: AlertView)
    ensures
        acknowledged(a).acknowledged,
        acknowledged(a).id == a.id,
        acknowledged(a).metric == a.metric,
        acknowledged(a).message == a.message,
        acknowledged(a).severity == a.severity,
        acknowledged(a).timestamp == a.timestamp,
{
}

/// The critical view holds every alert of high or critical severity,
/// acknowledged or not, and nothing else.
pub proof fn law_critical_view_is_high_and_critical(s: Seq<AlertView>)
    ensures
        forall|i: int|
            0 <= i < s.len() && (s[i].severity == Urgency::High || s[i].severity
                == Urgency::Critical) ==> severe_views(s).contains(#[trigger] s[i]),
        forall|j: int|
            0 <= j < severe_views(s).len() ==> (#[trigger] severe_views(s)[j]).severity
                == Urgency::High || severe_views(s)[j].severity == Urgency::Critical,
{
    let pred = |a: AlertView| is_severe(a.severity);
    assert forall|i: int|
        0 <= i < s.len() && (s[i].severity == Urgency::High || s[i].severity == Urgency::Critical)
        implies severe_views(s).contains(#[trigger] s[i]) by {
        s.lemma_filter_contains(pred, i);
    }
    assert forall|j: int| 0 <= j < severe_views(s).len() implies (#[trigger] severe_views(
        s,
    )[j]).severity == Urgency::High || severe_views(s)[j].severity == Urgency::Critical by {
        s.lemma_filter_pred(pred, j);
    }
}

/// The active view holds every alert not yet acknowledged, and nothing else.
pub proof fn law_active_view_is_unacknowledged(s: Seq<AlertView>)
    ensures
        forall|i: int| 0 <= i < s.len() && !s[i].acknowledged ==> active_views(s).contains(
            #[trigger] s[i],
        ),
        forall|j: int| 0 <= j < active_views(s).len() ==> !(#[trigger] active_views(s)[j]).acknowledged,
{
    let pred = |a: AlertView| !a.acknowledged;
    assert forall|i: int| 0 <= i < s.len() && !s[i].acknowledged implies active_views(s).contains(
        #[trigger] s[i],
    ) by {
        s.lemma_filter_contains(pred, i);
    }
    assert forall|j: int| 0 <= j < active_views(s).len() implies !(#[trigger] active_views(
        s,
    )[j]).acknowledged by {
        s.lemma_filter_pred(pred, j);
    }
}

/// Acknowledging the same alert twice leaves the book as acknowledging it once.
pub proof fn law_acknowledge_idempotent(s: Seq<AlertView>, id: Seq<char>, i: int)
    requires
        first_with_id(s, id, i),
    ensures
        first_with_id(s.update(i, acknowledged(s[i])), id, i),
        s.update(i, acknowledged(s[i])).update(i, acknowledged(s.update(i, acknowledged(s[i]))[i]))
            == s.update(i, acknowledged(s[i])),
{
    let t = s.update(i, acknowledged(s[i]));
    assert(t.update(i, acknowledged(t[i])) =~= t);
}

/// Every element of a filtered sequence comes from the sequence.
proof fn lemma_filter_member(s: Seq<AlertView>, pred: spec_fn(AlertView) -> bool, j: int)
    requires
        0 <= j < s.filter(pred).len(),
    ensures
        exists|m: int| 0 <= m < s.len() && s[m] == s.filter(pred)[j],
    decreases s.len(),
{
    reveal(Seq::filter);
    let init = s.drop_last();
    let sub = init.filter(pred);
    if j < sub.len() {
        lemma_filter_member(init, pred, j);
        let m = choose|m: int| 0 <= m < init.len() && init[m] == sub[j];
        assert(s[m] == init[m]);
        assert(s.filter(pred)[j] == sub[j]);
    } else {
        assert(s.filter(pred)[j] == s.last());
        assert(s[s.len() - 1] == s.last());
    }
}

} // verus!
