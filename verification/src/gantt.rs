//! A Gantt-style schedule and its textual rendering.
//!
//! A schedule maps section keys (operator ids in string form) to ordered
//! lists of interval records: instantaneous milestones and spanning tasks.
//! Rendering emits a fixed header and then one block per section, the
//! sections in ascending lexicographic order of their keys and the records
//! of each section in insertion order, so that equal schedules always
//! render to identical rows.
//!
//! Times are durations since the start of a run, in whole milliseconds,
//! and render as zero-padded `SS.mmm`.

use vstd::prelude::*;
use vstd::string::StrSliceExecFns;
use vstd::string::StringExecFns;

use crate::text::dec_digits;
use crate::text::digit_char;
use crate::text::lemma_lex_le_refl;
use crate::text::lemma_lex_le_total;
use crate::text::lemma_lex_le_trans;
use crate::text::lex_le;
use crate::text::lex_lt;
use crate::text::push_decimal;
use crate::text::push_digit;
use crate::text::str_eq;
use crate::text::str_lex_le;

verus! {

/// Renders a duration of `time_ms` milliseconds as seconds with three
/// decimals, the seconds zero-padded to at least two digits.
pub open spec fn spec_format_time(time_ms: u64) -> Seq<char> {
    let sec = time_ms as nat / 1000;
    let frac = time_ms as nat % 1000;
    (if sec < 10 {
        seq!['0']
    } else {
        Seq::<char>::empty()
    }) + dec_digits(sec) + seq!['.'] + seq![
        digit_char((frac / 100) as int),
        digit_char(((frac / 10) % 10) as int),
        digit_char((frac % 10) as int),
    ]
}

/// Renders a duration of `time_ms` milliseconds as zero-padded `SS.mmm`.
pub fn format_time(time_ms: u64) -> (r: String)
    ensures
        r@ == spec_format_time(time_ms),
{
    let sec = time_ms / 1000;
    let frac = time_ms % 1000;
    let mut s = String::new();
    if sec < 10 {
        push_digit(&mut s, 0);
    }
    push_decimal(&mut s, sec);
    proof {
        reveal_strlit(".");
        assert("."@ =~= seq!['.']);
    }
    s.append(".");
    push_digit(&mut s, (frac / 100) as u8);
    push_digit(&mut s, ((frac / 10) % 10) as u8);
    push_digit(&mut s, (frac % 10) as u8);
    proof {
        assert(s@ =~= spec_format_time(time_ms));
    }
    s
}

/// One entry of a section: an instantaneous milestone or a spanning task.
#[verifier::ext_equal]
pub enum RecordV {
    Milestone { name: Seq<char>, at: u64 },
    Task { name: Seq<char>, start_at: u64, end_at: u64 },
}

enum Record {
    Milestone { name: String, at: u64 },
    Task { name: String, start_at: u64, end_at: u64 },
}

impl View for Record {
    type V = RecordV;

    closed spec fn view(&self) -> RecordV {
        match self {
            Record::Milestone { name, at } => RecordV::Milestone { name: name@, at: *at },
            Record::Task { name, start_at, end_at } => RecordV::Task {
                name: name@,
                start_at: *start_at,
                end_at: *end_at,
            },
        }
    }
}

impl DeepView for Record {
    type V = RecordV;

    open spec fn deep_view(&self) -> RecordV {
        self.view()
    }
}

/// One section: a key and its records in insertion order.
#[verifier::ext_equal]
pub struct SectionV {
    pub name: Seq<char>,
    pub schedule: Seq<RecordV>,
}

struct Section {
    name: String,
    schedule: Vec<Record>,
}

impl View for Section {
    type V = SectionV;

    closed spec fn view(&self) -> SectionV {
        SectionV { name: self.name@, schedule: self.schedule.deep_view() }
    }
}

impl DeepView for Section {
    type V = SectionV;

    open spec fn deep_view(&self) -> SectionV {
        self.view()
    }
}

/// The row a record renders to.
pub open spec fn spec_record_md(r: RecordV) -> Seq<char> {
    match r {
        RecordV::Milestone { name, at } => name + ": milestone, "@ + spec_format_time(at)
            + ", 0"@,
        RecordV::Task { name, start_at, end_at } => name + ": "@ + spec_format_time(start_at)
            + ", "@ + spec_format_time(end_at),
    }
}

/// The rows of one section's records, in insertion order.
pub open spec fn spec_section_md(s: SectionV) -> Seq<Seq<char>> {
    s.schedule.map_values(|r: RecordV| spec_record_md(r))
}

/// The blocks of all sections, in the order given: a blank row, a
/// `section <key>` row, then the section's records.
pub open spec fn spec_sections_md(ss: Seq<SectionV>) -> Seq<Seq<char>>
    decreases ss.len(),
{
    if ss.len() == 0 {
        Seq::<Seq<char>>::empty()
    } else {
        seq![Seq::<char>::empty(), "section "@ + ss[0].name] + spec_section_md(ss[0])
            + spec_sections_md(ss.drop_first())
    }
}

/// The complete rendering: the fixed header, then the section blocks.
pub open spec fn spec_gantt_md(ss: Seq<SectionV>) -> Seq<Seq<char>> {
    seq!["gantt"@, "dateFormat ss.SSS"@, "axisFormat %S.%L s"@] + spec_sections_md(ss)
}

/// Adds `r` to the section keyed `key`: appends to the section's records
/// if the key is present, and otherwise inserts a fresh section at the
/// position that keeps the keys in ascending order.
pub open spec fn spec_push_record(ss: Seq<SectionV>, key: Seq<char>, r: RecordV) -> Seq<SectionV>
    decreases ss.len(),
{
    if ss.len() == 0 {
        seq![SectionV { name: key, schedule: seq![r] }]
    } else if ss[0].name == key {
        seq![SectionV { name: key, schedule: ss[0].schedule.push(r) }] + ss.drop_first()
    } else if lex_lt(key, ss[0].name) {
        seq![SectionV { name: key, schedule: seq![r] }] + ss
    } else {
        seq![ss[0]] + spec_push_record(ss.drop_first(), key, r)
    }
}

/// Sections already known to come strictly before the key pass through
/// [`spec_push_record`] unchanged.
proof fn lemma_spec_push_skip(ss: Seq<SectionV>, key: Seq<char>, r: RecordV, i: int)
    requires
        0 <= i <= ss.len(),
        forall|j: int| 0 <= j < i ==> lex_lt(#[trigger] ss[j].name, key),
    ensures
        spec_push_record(ss, key, r) == ss.take(i) + spec_push_record(ss.skip(i), key, r),
    decreases i,
{
    if i == 0 {
        assert(ss.skip(0) =~= ss);
        assert(ss.take(0) + spec_push_record(ss, key, r) =~= spec_push_record(ss, key, r));
    } else {
        assert(lex_lt(ss[0].name, key));
        assert(ss[0].name != key);
        assert(!lex_lt(key, ss[0].name)) by {
            if lex_le(key, ss[0].name) {
                crate::text::lemma_lex_le_antisym(key, ss[0].name);
            }
        }
        let tail = ss.drop_first();
        assert(forall|j: int| 0 <= j < i - 1 ==> lex_lt(#[trigger] tail[j].name, key));
        lemma_spec_push_skip(tail, key, r, i - 1);
        assert(tail.skip(i - 1) =~= ss.skip(i));
        assert(seq![ss[0]] + (tail.take(i - 1) + spec_push_record(ss.skip(i), key, r)) =~= ss.take(
            i,
        ) + spec_push_record(ss.skip(i), key, r));
    }
}

impl Record {
    /// The single row this record renders to.
    fn to_md(&self) -> (r: String)
        ensures
            r@ == spec_record_md(self@),
    {
        match self {
            Record::Milestone { name, at } => {
                let mut r = String::new();
                r.append(name.as_str());
                r.append(": milestone, ");
                let t = format_time(*at);
                r.append(t.as_str());
                r.append(", 0");
                proof {
                    assert(r@ =~= spec_record_md(self@));
                }
                r
            },
            Record::Task { name, start_at, end_at } => {
                let mut r = String::new();
                r.append(name.as_str());
                r.append(": ");
                let t0 = format_time(*start_at);
                r.append(t0.as_str());
                r.append(", ");
                let t1 = format_time(*end_at);
                r.append(t1.as_str());
                proof {
                    assert(r@ =~= spec_record_md(self@));
                }
                r
            },
        }
    }
}

impl Section {
    /// The rows of this section's records, in insertion order.
    fn to_md(&self) -> (rows: Vec<String>)
        ensures
            rows.deep_view() == spec_section_md(self@),
    {
        let mut rows: Vec<String> = Vec::new();
        let n = self.schedule.len();
        let mut k: usize = 0;
        while k < n
            invariant
                k <= n,
                n == self.schedule.len(),
                rows.deep_view() =~~= self@.schedule.take(k as int).map_values(
                    |r: RecordV| spec_record_md(r),
                ),
            decreases n - k,
        {
            let ghost prior = rows.deep_view();
            let row = self.schedule[k].to_md();
            rows.push(row);
            proof {
                let target = self@.schedule.take(k + 1int).map_values(
                    |r: RecordV| spec_record_md(r),
                );
                assert(prior.len() == k as int);
                assert(rows@.len() == k + 1);
                assert(rows.deep_view().len() == rows@.len());
                assert(self@.schedule.len() == n);
                assert(target.len() == k + 1);
                assert(rows.deep_view().len() == target.len());
                assert forall|j: int| 0 <= j <= k implies rows.deep_view()[j] == target[j] by {
                    assert(target[j] == spec_record_md(self@.schedule[j]));
                    if j < k {
                        assert(rows.deep_view()[j] == prior[j]);
                        assert(prior[j] == spec_record_md(self@.schedule[j]));
                    } else {
                        assert(rows.deep_view()[j] == row@);
                        assert(self@.schedule[j] == self.schedule@[j]@);
                    }
                }
                assert(rows.deep_view() =~~= target);
            }
            k = k + 1;
        }
        proof {
            assert(self@.schedule.take(n as int) =~= self@.schedule);
            assert(rows.deep_view() =~~= spec_section_md(self@));
        }
        rows
    }
}

/// A schedule: sections keyed by operator id, each an ordered list of
/// interval records, the sections kept in ascending lexicographic order
/// of their keys.
pub struct Gantt {
    sections: Vec<Section>,
}

impl View for Gantt {
    type V = Seq<SectionV>;

    closed spec fn view(&self) -> Seq<SectionV> {
        self.sections.deep_view()
    }
}

impl Gantt {
    /// The section keys stand in strictly ascending lexicographic order.
    pub closed spec fn inv(&self) -> bool {
        forall|i: int, j: int|
            0 <= i < j < self@.len() ==> lex_lt(#[trigger] self@[i].name, #[trigger] self@[j].name)
    }

    /// An empty schedule.
    pub fn new() -> (g: Gantt)
        ensures
            g.inv(),
            g@ == Seq::<SectionV>::empty(),
    {
        let g = Gantt { sections: Vec::new() };
        proof {
            assert(g@ =~= Seq::<SectionV>::empty());
        }
        g
    }

    /// Adds a record under the given section key.
    fn push_record(&mut self, section: &str, rec: Record)
        requires
            old(self).inv(),
        ensures
            final(self).inv(),
            final(self)@ == spec_push_record(old(self)@, section@, rec@),
    {
        let ghost ss0 = self@;
        let ghost key = section@;
        let n = self.sections.len();
        let mut i: usize = 0;
        while i < n
            invariant_except_break
                i <= n,
                *self == *old(self),
                n == self.sections.len(),
                ss0 == self@,
                key == section@,
                forall|j: int| 0 <= j < i ==> lex_lt(#[trigger] ss0[j].name, key),
            ensures
                i <= n,
                *self == *old(self),
                n == self.sections.len(),
                ss0 == self@,
                key == section@,
                forall|j: int| 0 <= j < i ==> lex_lt(#[trigger] ss0[j].name, key),
                i < n ==> lex_le(key, ss0[i as int].name),
            decreases n - i,
        {
            let le = str_lex_le(section, self.sections[i].name.as_str());
            if le {
                break ;
            }
            proof {
                lemma_lex_le_total(key, ss0[i as int].name);
                if ss0[i as int].name == key {
                    lemma_lex_le_refl(key);
                    assert(false);
                }
            }
            i = i + 1;
        }
        proof {
            lemma_spec_push_skip(ss0, key, rec@, i as int);
        }
        if i < n {
            let equal = str_eq(section, self.sections[i].name.as_str());
            if equal {
                let mut sec = self.sections.remove(i);
                sec.schedule.push(rec);
                self.sections.insert(i, sec);
                proof {
                    let tail = ss0.skip(i as int);
                    assert(tail[0].name == key);
                    assert(spec_push_record(tail, key, rec@) == seq![
                        SectionV { name: key, schedule: tail[0].schedule.push(rec@) },
                    ] + tail.drop_first());
                    assert(sec@.schedule =~~= tail[0].schedule.push(rec@));
                    assert(self@ =~~= spec_push_record(ss0, key, rec@));
                    assert(forall|a: int, b: int|
                        0 <= a < b < self@.len() ==> lex_lt(
                            #[trigger] self@[a].name,
                            #[trigger] self@[b].name,
                        )) by {
                        assert(forall|a: int|
                            0 <= a < self@.len() ==> #[trigger] self@[a].name == ss0[a].name);
                    }
                }
                return ;
            }
            let mut sched: Vec<Record> = Vec::new();
            sched.push(rec);
            self.sections.insert(i, Section { name: section.to_owned(), schedule: sched });
            proof {
                let tail = ss0.skip(i as int);
                assert(tail[0].name != key);
                assert(lex_lt(key, tail[0].name));
                assert(spec_push_record(tail, key, rec@) == seq![
                    SectionV { name: key, schedule: seq![rec@] },
                ] + tail);
                assert(self@ =~~= spec_push_record(ss0, key, rec@));
                assert forall|a: int, b: int| 0 <= a < b < self@.len() implies lex_lt(
                    #[trigger] self@[a].name,
                    #[trigger] self@[b].name,
                ) by {
                    if a < i && b > i {
                        assert(self@[a].name == ss0[a].name);
                        assert(self@[b].name == ss0[b - 1].name);
                    } else if a == i {
                        assert(self@[b].name == ss0[b - 1].name);
                        if b - 1 > i {
                            lemma_lex_le_trans(key, ss0[i as int].name, ss0[b - 1].name);
                            if ss0[b - 1].name == key {
                                crate::text::lemma_lex_le_antisym(key, ss0[i as int].name);
                                assert(false);
                            }
                        }
                    } else if b == i {
                        assert(self@[a].name == ss0[a].name);
                    }
                }
            }
        } else {
            let mut sched: Vec<Record> = Vec::new();
            sched.push(rec);
            self.sections.push(Section { name: section.to_owned(), schedule: sched });
            proof {
                let tail = ss0.skip(i as int);
                assert(tail.len() == 0);
                assert(spec_push_record(tail, key, rec@) == seq![
                    SectionV { name: key, schedule: seq![rec@] },
                ]);
                assert(self@ =~~= spec_push_record(ss0, key, rec@));
                assert(forall|a: int|
                    0 <= a < ss0.len() ==> #[trigger] self@[a].name == ss0[a].name);
            }
        }
    }

    /// Adds a spanning task under the given section key.
    pub fn push_task(&mut self, section: &str, task: String, start_at_ms: u64, end_at_ms: u64)
        requires
            old(self).inv(),
        ensures
            final(self).inv(),
            final(self)@ == spec_push_record(
                old(self)@,
                section@,
                RecordV::Task { name: task@, start_at: start_at_ms, end_at: end_at_ms },
            ),
    {
        self.push_record(
            section,
            Record::Task { name: task, start_at: start_at_ms, end_at: end_at_ms },
        );
    }

    /// Adds an instantaneous milestone under the given section key.
    pub fn push_milestone(&mut self, section: &str, milestone: String, at_ms: u64)
        requires
            old(self).inv(),
        ensures
            final(self).inv(),
            final(self)@ == spec_push_record(
                old(self)@,
                section@,
                RecordV::Milestone { name: milestone@, at: at_ms },
            ),
    {
        self.push_record(section, Record::Milestone { name: milestone, at: at_ms });
    }

    /// Renders the schedule: the fixed header, then one block per section,
    /// the sections in the order held (ascending keys, by [`Gantt::inv`]).
    #[verifier::loop_isolation(false)]
    pub fn to_md(&self) -> (rows: Vec<String>)
        ensures
            rows.deep_view() == spec_gantt_md(self@),
    {
        let mut rows: Vec<String> = Vec::new();
        rows.push(String::from_str("gantt"));
        rows.push(String::from_str("dateFormat ss.SSS"));
        rows.push(String::from_str("axisFormat %S.%L s"));
        proof {
            assert(rows.deep_view() =~~= seq![
                "gantt"@,
                "dateFormat ss.SSS"@,
                "axisFormat %S.%L s"@,
            ] + spec_sections_md(self@.take(0)));
        }
        let n = self.sections.len();
        let mut i: usize = 0;
        while i < n
            invariant
                i <= n,
                rows.deep_view() =~~= seq!["gantt"@, "dateFormat ss.SSS"@, "axisFormat %S.%L s"@]
                    + spec_sections_md(self@.take(i as int)),
            decreases n - i,
        {
            let ghost before = rows.deep_view();
            rows.push(String::new());
            let mut header = String::from_str("section ");
            header.append(self.sections[i].name.as_str());
            rows.push(header);
            let md = self.sections[i].to_md();
            let m = md.len();
            let mut k: usize = 0;
            while k < m
                invariant
                    k <= m,
                    m == md.len(),
                    md.deep_view() == spec_section_md(self@[i as int]),
                    rows.deep_view() =~~= before + seq![
                        Seq::<char>::empty(),
                        "section "@ + self@[i as int].name,
                    ] + md.deep_view().take(k as int),
                decreases m - k,
            {
                let ghost prior = rows.deep_view();
                let row = md[k].clone();
                rows.push(row);
                proof {
                    let target = before + seq![
                        Seq::<char>::empty(),
                        "section "@ + self@[i as int].name,
                    ] + md.deep_view().take(k + 1int);
                    assert(rows.deep_view().len() == target.len());
                    assert forall|j: int| 0 <= j < target.len() implies rows.deep_view()[j]
                        == target[j] by {
                        if j < prior.len() {
                            assert(rows.deep_view()[j] == prior[j]);
                        } else {
                            assert(rows.deep_view()[j] == row@);
                            assert(row@ == md@[k as int]@);
                            assert(md.deep_view()[k as int] == md@[k as int]@);
                            assert(target[j] == md.deep_view().take(k + 1int)[k as int]);
                        }
                    }
                    assert(rows.deep_view() =~~= target);
                }
                k = k + 1;
            }
            proof {
                assert(md.deep_view().take(m as int) =~~= spec_section_md(self@[i as int]));
                lemma_sections_md_snoc(self@, i as int);
                assert(rows.deep_view() =~~= seq![
                    "gantt"@,
                    "dateFormat ss.SSS"@,
                    "axisFormat %S.%L s"@,
                ] + spec_sections_md(self@.take(i + 1int)));
            }
            i = i + 1;
        }
        proof {
            assert(self@.take(n as int) =~= self@);
        }
        rows
    }
}

/// Extending the rendered prefix by one section appends exactly that
/// section's block.
proof fn lemma_sections_md_snoc(ss: Seq<SectionV>, i: int)
    requires
        0 <= i < ss.len(),
    ensures
        spec_sections_md(ss.take(i + 1)) == spec_sections_md(ss.take(i)) + seq![
            Seq::<char>::empty(),
            "section "@ + ss[i].name,
        ] + spec_section_md(ss[i]),
    decreases i,
{
    if i == 0 {
        let one = ss.take(1);
        assert(one[0] == ss[0]);
        assert(one.len() == 1);
        assert(spec_sections_md(one) == seq![Seq::<char>::empty(), "section "@ + one[0].name]
            + spec_section_md(one[0]) + spec_sections_md(one.drop_first()));
        assert(spec_sections_md(one.drop_first()).len() == 0);
        assert(spec_sections_md(ss.take(0)).len() == 0);
        assert(spec_section_md(one[0]) == spec_section_md(ss[0]));
        assert(one.drop_first() =~= Seq::<SectionV>::empty());
        assert(spec_sections_md(one) =~~= spec_sections_md(ss.take(0)) + seq![
            Seq::<char>::empty(),
            "section "@ + ss[0].name,
        ] + spec_section_md(ss[0]));
    } else {
        let tail = ss.drop_first();
        lemma_sections_md_snoc(tail, i - 1);
        assert(tail.take(i - 1) =~= ss.take(i).drop_first());
        assert(tail.take(i) =~= ss.take(i + 1).drop_first());
        assert(tail[i - 1] == ss[i]);
        assert(ss.take(i)[0] == ss[0]);
        assert(ss.take(i + 1)[0] == ss[0]);
        assert(spec_sections_md(ss.take(i + 1)) =~~= spec_sections_md(ss.take(i)) + seq![
            Seq::<char>::empty(),
            "section "@ + ss[i].name,
        ] + spec_section_md(ss[i]));
    }
}

/// The rendering is a pure function of the schedule's contents: equal
/// schedules render to identical rows.
pub proof fn lemma_render_deterministic(a: Seq<SectionV>, b: Seq<SectionV>)
    requires
        a == b,
    ensures
        spec_gantt_md(a) == spec_gantt_md(b),
{
}

/// The section keys of a well-formed schedule stand in strictly ascending
/// lexicographic order, so the rendered `section` rows do too.
pub proof fn lemma_sections_ascending(g: &Gantt)
    requires
        g.inv(),
    ensures
        forall|i: int, j: int|
            0 <= i < j < g@.len() ==> lex_lt(#[trigger] g@[i].name, #[trigger] g@[j].name),
{
}

} // verus!
