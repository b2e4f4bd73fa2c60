//! Committed offsets of consumer groups, and the text of a group's offsets
//! file: one `topic:partition=offset` line per committed offset.
use vstd::prelude::*;
use crate::error::Result;
use crate::text::{decimal_text, parse_unsigned, parse_decimal, same_text, u64_decimal, all_digits, is_digit, lemma_decimal_text_digits, lemma_parse_decimal_text};

verus! {

/// The first position of `c` in `s`.
pub open spec fn first_index(s: Seq<char>, c: char) -> Option<int>
    decreases s.len(),
{
    if s.len() == 0 {
        None
    } else if s[0] == c {
        Some(0)
    } else {
        match first_index(s.drop_first(), c) {
            Some(i) => Some(i + 1),
            None => None,
        }
    }
}

/// The first position of `c` holds `c`, and no position before it does.
pub proof fn lemma_first_index(s: Seq<char>, c: char)
    ensures
        match first_index(s, c) {
            Some(i) => 0 <= i < s.len() && s[i] == c && forall|k: int| 0 <= k < i ==> s[k] != c,
            None => forall|k: int| 0 <= k < s.len() ==> s[k] != c,
        },
    decreases s.len(),
{
    if s.len() > 0 {
        lemma_first_index(s.drop_first(), c);
        assert forall|k: int| 1 <= k < s.len() implies s[k] == s.drop_first()[k - 1] by {}
    }
}

/// A line without the carriage return that ended it.
pub open spec fn strip_cr(l: Seq<char>) -> Seq<char> {
    if l.len() > 0 && l.last() == '\r' {
        l.drop_last()
    } else {
        l
    }
}

/// The lines of `s`, as `str::lines` splits them, when the line being read
/// so far is `cur`: a line ends at each `\n` (a `\r` just before it is
/// dropped), and a last line without `\n` counts when it is not empty.
pub open spec fn lines_from(s: Seq<char>, cur: Seq<char>) -> Seq<Seq<char>>
    decreases s.len(),
{
    if s.len() == 0 {
        if cur.len() == 0 {
            Seq::empty()
        } else {
            seq![cur]
        }
    } else if s[0] == '\n' {
        seq![strip_cr(cur)] + lines_from(s.drop_first(), Seq::empty())
    } else {
        lines_from(s.drop_first(), cur.push(s[0]))
    }
}

/// The lines of `s`, as `str::lines` splits them.
pub open spec fn text_lines(s: Seq<char>) -> Seq<Seq<char>> {
    lines_from(s, Seq::empty())
}

/// What a line of an offsets file says: `topic:partition=offset`, split at
/// the first `=` and then at the first `:` before it; `None` when either
/// is missing or a number does not parse.
pub open spec fn parse_line(line: Seq<char>) -> Option<(Seq<char>, u32, u64)> {
    match first_index(line, '=') {
        None => None,
        Some(e) => {
            let key = line.subrange(0, e);
            let value = line.subrange(e + 1, line.len() as int);
            match first_index(key, ':') {
                None => None,
                Some(c) => {
                    let topic = key.subrange(0, c);
                    let partition = key.subrange(c + 1, key.len() as int);
                    match (parse_unsigned(partition, u32::MAX as nat), parse_unsigned(value, u64::MAX as nat)) {
                        (Some(p), Some(o)) => Some((topic, p as u32, o as u64)),
                        _ => None,
                    }
                },
            }
        },
    }
}

/// What the lines say, skipping the lines that do not parse.
pub open spec fn parse_lines(lines: Seq<Seq<char>>) -> Seq<(Seq<char>, u32, u64)>
    decreases lines.len(),
{
    if lines.len() == 0 {
        Seq::empty()
    } else {
        let rest = parse_lines(lines.drop_first());
        match parse_line(lines[0]) {
            Some(e) => seq![e] + rest,
            None => rest,
        }
    }
}

/// What an offsets file says: its lines that parse, in order.
pub open spec fn parse_offsets(s: Seq<char>) -> Seq<(Seq<char>, u32, u64)> {
    parse_lines(text_lines(s))
}

/// The characters of a string slice.
pub(crate) fn chars_of(s: &str) -> (r: Vec<char>)
    ensures
        r@ == s@,
{
    let mut r: Vec<char> = Vec::new();
    for c in it: s.chars()
        invariant
            it.seq() == s@,
            r@ == s@.subrange(0, it.index()),
    {
        r.push(c);
        assert(r@ =~= s@.subrange(0, it.index() + 1));
    }
    assert(s@.subrange(0, s@.len() as int) =~= s@);
    r
}

/// The first position of `c` in `chars[from..to]`, counted from `from`.
fn find_char(chars: &Vec<char>, from: usize, to: usize, c: char) -> (r: Option<usize>)
    requires
        from <= to <= chars.len(),
    ensures
        match first_index(chars@.subrange(from as int, to as int), c) {
            Some(i) => r == Some((from + i) as usize),
            None => r is None,
        },
        r matches Some(j) ==> from <= j < to && chars@[j as int] == c
            && first_index(chars@.subrange(from as int, to as int), c) == Some(j - from),
        r is None ==> first_index(chars@.subrange(from as int, to as int), c) is None,
{
    proof {
        lemma_first_index(chars@.subrange(from as int, to as int), c);
    }
    let ghost s = chars@.subrange(from as int, to as int);
    let mut j = from;
    while j < to
        invariant
            from <= j <= to <= chars.len(),
            s == chars@.subrange(from as int, to as int),
            first_index(s, c) == match first_index(chars@.subrange(j as int, to as int), c) {
                Some(x) => Some(x + j - from),
                None => None,
            },
        decreases to - j,
    {
        proof {
            let t = chars@.subrange(j as int, to as int);
            assert(t.drop_first() =~= chars@.subrange(j + 1, to as int));
            assert(t[0] == chars@[j as int]);
        }
        if chars[j] == c {
            return Some(j);
        }
        j = j + 1;
    }
    None
}

/// What the line `chars[from..to]` says.
fn read_line(text: &str, chars: &Vec<char>, from: usize, to: usize) -> (r: Option<(String, u32, u64)>)
    requires
        from <= to <= chars.len(),
        chars@ == text@,
    ensures
        match parse_line(chars@.subrange(from as int, to as int)) {
            Some(e) => r matches Some(x) && x.0@ == e.0 && x.1 == e.1 && x.2 == e.2,
            None => r is None,
        },
{
    let ghost line = chars@.subrange(from as int, to as int);
    let e = match find_char(chars, from, to, '=') {
        Some(e) => e,
        None => {
            assert(first_index(line, '=') is None);
            return None;
        },
    };
    let ghost key = line.subrange(0, e - from);
    let ghost value = line.subrange(e - from + 1, line.len() as int);
    proof {
        assert(first_index(line, '=') == Some(e - from));
        assert(key =~= chars@.subrange(from as int, e as int));
        assert(value =~= chars@.subrange(e + 1, to as int));
    }
    let c = match find_char(chars, from, e, ':') {
        Some(c) => c,
        None => {
            assert(first_index(key, ':') is None);
            return None;
        },
    };
    let ghost topic = key.subrange(0, c - from);
    let ghost part = key.subrange(c - from + 1, key.len() as int);
    proof {
        assert(first_index(key, ':') == Some(c - from));
        assert(topic =~= chars@.subrange(from as int, c as int));
        assert(part =~= chars@.subrange(c + 1, e as int));
    }
    let partition = parse_decimal(chars, c + 1, e, u32::MAX as u64);
    let offset = parse_decimal(chars, e + 1, to, u64::MAX);
    match (partition, offset) {
        (Some(p), Some(o)) => {
            let t = text.substring_char(from, c).to_owned();
            assert(t@ == topic);
            Some((t, p as u32, o))
        },
        _ => None,
    }
}

/// What the offsets file `text` says: its lines that parse, in order.
pub fn parse_offsets_text(text: &str) -> (r: Vec<(String, u32, u64)>)
    ensures
        r@.len() == parse_offsets(text@).len(),
        forall|i: int| 0 <= i < r@.len() ==> {
            let e = #[trigger] parse_offsets(text@)[i];
            r@[i].0@ == e.0 && r@[i].1 == e.1 && r@[i].2 == e.2
        },
{
    let chars = chars_of(text);
    let n = chars.len();
    let ghost s = chars@;
    let ghost mut done: Seq<(Seq<char>, u32, u64)> = Seq::empty();
    let mut r: Vec<(String, u32, u64)> = Vec::new();
    let mut start: usize = 0;
    let mut i: usize = 0;
    proof {
        assert(s.subrange(0, n as int) =~= s);
        assert(s.subrange(0, 0) =~= Seq::<char>::empty());
        assert(done + parse_offsets(s) =~= parse_offsets(s));
    }
    while i < n
        invariant
            start <= i <= n == chars.len(),
            s == chars@,
            s == text@,
            parse_offsets(s) == done + parse_lines(lines_from(s.subrange(i as int, n as int), s.subrange(start as int, i as int))),
            r@.len() == done.len(),
            forall|k: int| 0 <= k < r@.len() ==> r@[k].0@ == (#[trigger] done[k]).0 && r@[k].1 == done[k].1 && r@[k].2 == done[k].2,
        decreases n - i,
    {
        proof {
            let rest = s.subrange(i as int, n as int);
            assert(rest[0] == s[i as int]);
            assert(rest.drop_first() =~= s.subrange(i + 1, n as int));
        }
        if chars[i] == '\n' {
            let mut end = i;
            if end > start && chars[end - 1] == '\r' {
                end = end - 1;
            }
            proof {
                let cur = s.subrange(start as int, i as int);
                assert(strip_cr(cur) =~= s.subrange(start as int, end as int));
                assert(s.subrange(i + 1, i + 1) =~= Seq::<char>::empty());
                let ls = seq![strip_cr(cur)] + lines_from(s.subrange(i + 1, n as int), Seq::empty());
                assert(ls[0] == strip_cr(cur));
                assert(ls.drop_first() =~= lines_from(s.subrange(i + 1, n as int), Seq::empty()));
            }
            let ghost before = done;
            match read_line(text, &chars, start, end) {
                Some(entry) => {
                    proof {
                        done = done.push(parse_line(s.subrange(start as int, end as int))->0);
                        assert(before + (seq![parse_line(s.subrange(start as int, end as int))->0] + parse_lines(lines_from(s.subrange(i + 1, n as int), Seq::empty())))
                            =~= done + parse_lines(lines_from(s.subrange(i + 1, n as int), Seq::empty())));
                    }
                    r.push(entry);
                },
                None => {},
            }
            start = i + 1;
            proof {
                assert(s.subrange(start as int, i + 1) =~= Seq::<char>::empty());
            }
        } else {
            proof {
                assert(s.subrange(start as int, i as int).push(s[i as int]) =~= s.subrange(start as int, i + 1));
            }
        }
        i = i + 1;
    }
    proof {
        assert(s.subrange(n as int, n as int) =~= Seq::<char>::empty());
    }
    if start < n {
        proof {
            let cur = s.subrange(start as int, n as int);
            assert(lines_from(Seq::<char>::empty(), cur) == seq![cur]);
            let ls = seq![cur];
            assert(ls.drop_first() =~= Seq::<Seq<char>>::empty());
            assert(parse_lines(ls.drop_first()) == Seq::<(Seq<char>, u32, u64)>::empty());
            assert(ls[0] == cur);
            assert(parse_offsets(s) == done + parse_lines(ls));
        }
        let ghost before = done;
        match read_line(text, &chars, start, n) {
            Some(entry) => {
                proof {
                    done = done.push(parse_line(s.subrange(start as int, n as int))->0);
                    assert(parse_lines(seq![s.subrange(start as int, n as int)]) =~= seq![parse_line(s.subrange(start as int, n as int))->0]);
                    assert(before + seq![parse_line(s.subrange(start as int, n as int))->0] =~= done);
                }
                r.push(entry);
            },
            None => {
                proof {
                    assert(parse_lines(seq![s.subrange(start as int, n as int)]) =~= Seq::<(Seq<char>, u32, u64)>::empty());
                    assert(before + Seq::<(Seq<char>, u32, u64)>::empty() =~= before);
                }
            },
        }
    } else {
        proof {
            assert(s.subrange(start as int, n as int) =~= Seq::<char>::empty());
            assert(lines_from(Seq::<char>::empty(), Seq::<char>::empty()) == Seq::<Seq<char>>::empty());
            assert(parse_lines(Seq::<Seq<char>>::empty()) == Seq::<(Seq<char>, u32, u64)>::empty());
            assert(done + Seq::<(Seq<char>, u32, u64)>::empty() =~= done);
        }
    }
    r
}

/// The line of an offsets file for an offset: `topic:partition=offset`
/// and a line feed.
pub open spec fn offset_line(topic: Seq<char>, partition: u32, offset: u64) -> Seq<char> {
    topic + ":"@ + decimal_text(partition as nat) + "="@ + decimal_text(offset as nat) + "\n"@
}

/// A committed offset: group, topic, partition and offset.
pub type OffsetEntry = (Seq<char>, Seq<char>, u32, u64);

/// The text of group `g`'s offsets file: a line per offset of the group,
/// in order.
pub open spec fn group_text(es: Seq<OffsetEntry>, g: Seq<char>) -> Seq<char>
    decreases es.len(),
{
    if es.len() == 0 {
        Seq::empty()
    } else {
        let rest = group_text(es.drop_first(), g);
        if es[0].0 == g {
            offset_line(es[0].1, es[0].2, es[0].3) + rest
        } else {
            rest
        }
    }
}

/// The offsets of group `g`, in order: topic, partition and offset.
pub open spec fn group_offsets(es: Seq<OffsetEntry>, g: Seq<char>) -> Seq<(Seq<char>, u32, u64)>
    decreases es.len(),
{
    if es.len() == 0 {
        Seq::empty()
    } else {
        let rest = group_offsets(es.drop_first(), g);
        if es[0].0 == g {
            seq![(es[0].1, es[0].2, es[0].3)] + rest
        } else {
            rest
        }
    }
}

/// The offsets of the groups other than `g`, in order.
pub open spec fn without_group(es: Seq<OffsetEntry>, g: Seq<char>) -> Seq<OffsetEntry>
    decreases es.len(),
{
    if es.len() == 0 {
        Seq::empty()
    } else {
        let rest = without_group(es.drop_first(), g);
        if es[0].0 == g {
            rest
        } else {
            seq![es[0]] + rest
        }
    }
}

/// The position of the offset of (`g`, `t`, `p`), if there is one.
pub open spec fn entry_index(es: Seq<OffsetEntry>, g: Seq<char>, t: Seq<char>, p: u32) -> Option<int> {
    if exists|i: int| 0 <= i < es.len() && (#[trigger] es[i]).0 == g && es[i].1 == t && es[i].2 == p {
        Some(choose|i: int| 0 <= i < es.len() && (#[trigger] es[i]).0 == g && es[i].1 == t && es[i].2 == p)
    } else {
        None
    }
}

/// The committed offset of (`g`, `t`, `p`).
pub open spec fn committed_offset(es: Seq<OffsetEntry>, g: Seq<char>, t: Seq<char>, p: u32) -> Option<u64> {
    match entry_index(es, g, t, p) {
        Some(i) => Some(es[i].3),
        None => None,
    }
}

/// The offsets once `o` is committed for (`g`, `t`, `p`): in place of the
/// one committed before, or added last.
pub open spec fn with_commit(es: Seq<OffsetEntry>, g: Seq<char>, t: Seq<char>, p: u32, o: u64) -> Seq<OffsetEntry> {
    match entry_index(es, g, t, p) {
        Some(i) => es.update(i, (g, t, p, o)),
        None => es.push((g, t, p, o)),
    }
}

/// The offsets once each entry read from group `g`'s file is committed, in
/// file order.
pub open spec fn with_loaded(es: Seq<OffsetEntry>, g: Seq<char>, read: Seq<(Seq<char>, u32, u64)>) -> Seq<OffsetEntry>
    decreases read.len(),
{
    if read.len() == 0 {
        es
    } else {
        with_loaded(with_commit(es, g, read[0].0, read[0].1, read[0].2), g, read.drop_first())
    }
}

/// Whether no two offsets share group, topic and partition.
pub open spec fn unique_keys(es: Seq<OffsetEntry>) -> bool {
    forall|i: int, j: int| 0 <= i < j < es.len() ==> !((#[trigger] es[i]).0 == (#[trigger] es[j]).0
        && es[i].1 == es[j].1 && es[i].2 == es[j].2)
}

/// A committed offset.
#[derive(Debug)]
pub struct CommittedOffset {
    pub group_id: String,
    pub topic: String,
    pub partition: u32,
    pub offset: u64,
}

/// The committed offsets of consumer groups, and the directory of their
/// files.
pub struct OffsetManager {
    entries: Vec<CommittedOffset>,
    data_dir: String,
}

/// What an entry holds.
pub open spec fn entry_view(e: CommittedOffset) -> OffsetEntry {
    (e.group_id@, e.topic@, e.partition, e.offset)
}

impl View for OffsetManager {
    type V = Seq<OffsetEntry>;

    closed spec fn view(&self) -> Seq<OffsetEntry> {
        self.entries@.map_values(|e: CommittedOffset| entry_view(e))
    }
}

/// The unique position of an offset, once found.
proof fn lemma_entry_index(es: Seq<OffsetEntry>, i: int)
    requires
        unique_keys(es),
        0 <= i < es.len(),
    ensures
        entry_index(es, es[i].0, es[i].1, es[i].2) == Some(i),
{
    let (g, t, p) = (es[i].0, es[i].1, es[i].2);
    assert(es[i].0 == g && es[i].1 == t && es[i].2 == p);
    let c = choose|k: int| 0 <= k < es.len() && (#[trigger] es[k]).0 == g && es[k].1 == t && es[k].2 == p;
    if c < i {
        assert(!(es[c].0 == es[i].0 && es[c].1 == es[i].1 && es[c].2 == es[i].2));
    } else if c > i {
        assert(!(es[i].0 == es[c].0 && es[i].1 == es[c].1 && es[i].2 == es[c].2));
    }
}

impl OffsetManager {
    /// Well-formedness: at most one offset per group, topic and partition.
    pub closed spec fn wf(&self) -> bool {
        unique_keys(self@)
    }

    /// A well-formed manager holds at most one offset per group, topic and
    /// partition.
    pub proof fn lemma_wf_unique_keys(&self)
        requires
            self.wf(),
        ensures
            unique_keys(self@),
    {
    }

    /// The directory of the offsets files.
    pub closed spec fn spec_data_dir(&self) -> Seq<char> {
        self.data_dir@
    }

    /// A manager with no offsets, keeping its files in `data_dir`.
    pub fn new(data_dir: String) -> (r: Self)
        ensures
            r.wf(),
            r@ == Seq::<OffsetEntry>::empty(),
            r.spec_data_dir() == data_dir@,
    {
        let r = OffsetManager { entries: Vec::new(), data_dir };
        assert(r@ =~= Seq::<OffsetEntry>::empty());
        r
    }

    /// The directory of the offsets files.
    pub fn data_dir(&self) -> (r: &str)
        ensures
            r@ == self.spec_data_dir(),
    {
        self.data_dir.as_str()
    }

    /// The position of the offset of (`group_id`, `topic`, `partition`).
    fn find(&self, group_id: &str, topic: &str, partition: u32) -> (r: Option<usize>)
        requires
            self.wf(),
        ensures
            match r {
                Some(i) => i < self.entries.len() && entry_index(self@, group_id@, topic@, partition) == Some(i as int),
                None => entry_index(self@, group_id@, topic@, partition) is None,
            },
    {
        let ghost es = self@;
        let mut i: usize = 0;
        while i < self.entries.len()
            invariant
                i <= self.entries.len(),
                es == self@,
                unique_keys(es),
                es.len() == self.entries.len(),
                forall|k: int| 0 <= k < i ==> !((#[trigger] es[k]).0 == group_id@ && es[k].1 == topic@ && es[k].2 == partition),
            decreases self.entries.len() - i,
        {
            let e = &self.entries[i];
            proof {
                assert(es[i as int] == entry_view(self.entries@[i as int]));
            }
            if e.partition == partition && same_text(group_id, &e.group_id) && same_text(topic, &e.topic) {
                proof {
                    lemma_entry_index(es, i as int);
                }
                return Some(i);
            }
            i = i + 1;
        }
        None
    }

    /// Commits `offset` for (`group_id`, `topic`, `partition`), in place of
    /// the offset committed before.
    pub fn commit_offset(&mut self, group_id: &str, topic: &str, partition: u32, offset: u64)
        requires
            old(self).wf(),
        ensures
            final(self).wf(),
            final(self)@ == with_commit(old(self)@, group_id@, topic@, partition, offset),
            final(self).spec_data_dir() == old(self).spec_data_dir(),
    {
        let ghost es = self@;
        let e = CommittedOffset { group_id: group_id.to_owned(), topic: topic.to_owned(), partition, offset };
        match self.find(group_id, topic, partition) {
            Some(i) => {
                self.entries.set(i, e);
                proof {
                    assert(self@ =~= es.update(i as int, (group_id@, topic@, partition, offset)));
                    let ns = self@;
                    assert forall|a: int, b: int| 0 <= a < b < ns.len() implies !((#[trigger] ns[a]).0 == (#[trigger] ns[b]).0
                        && ns[a].1 == ns[b].1 && ns[a].2 == ns[b].2) by {
                        assert(!(es[a].0 == es[b].0 && es[a].1 == es[b].1 && es[a].2 == es[b].2));
                    }
                }
            },
            None => {
                self.entries.push(e);
                proof {
                    assert(self@ =~= es.push((group_id@, topic@, partition, offset)));
                    let ns = self@;
                    assert forall|a: int, b: int| 0 <= a < b < ns.len() implies !((#[trigger] ns[a]).0 == (#[trigger] ns[b]).0
                        && ns[a].1 == ns[b].1 && ns[a].2 == ns[b].2) by {
                        if b == es.len() {
                            assert(ns[a] == es[a]);
                        }
                    }
                }
            },
        }
    }

    /// The committed offset of (`group_id`, `topic`, `partition`), if any.
    pub fn fetch_offset(&self, group_id: &str, topic: &str, partition: u32) -> (r: Result<Option<u64>>)
        requires
            self.wf(),
        ensures
            r == Ok::<Option<u64>, crate::error::GaffaError>(committed_offset(self@, group_id@, topic@, partition)),
    {
        match self.find(group_id, topic, partition) {
            Some(i) => Ok(Some(self.entries[i].offset)),
            None => Ok(None),
        }
    }

    /// The offsets of group `group_id`: topic and partition, and offset.
    pub fn get_group_offsets(&self, group_id: &str) -> (r: Vec<((String, u32), u64)>)
        ensures
            r@.len() == group_offsets(self@, group_id@).len(),
            forall|i: int| 0 <= i < r@.len() ==> {
                let e = #[trigger] group_offsets(self@, group_id@)[i];
                r@[i].0.0@ == e.0 && r@[i].0.1 == e.1 && r@[i].1 == e.2
            },
    {
        let ghost es = self@;
        let mut r: Vec<((String, u32), u64)> = Vec::new();
        let ghost mut got: Seq<(Seq<char>, u32, u64)> = Seq::empty();
        let mut i: usize = 0;
        proof {
            assert(es.subrange(0, es.len() as int) =~= es);
            assert(got + group_offsets(es, group_id@) =~= group_offsets(es, group_id@));
        }
        while i < self.entries.len()
            invariant
                i <= self.entries.len(),
                es == self@,
                es.len() == self.entries.len(),
                group_offsets(es, group_id@) == got + group_offsets(es.subrange(i as int, es.len() as int), group_id@),
                r@.len() == got.len(),
                forall|k: int| 0 <= k < r@.len() ==> r@[k].0.0@ == (#[trigger] got[k]).0 && r@[k].0.1 == got[k].1 && r@[k].1 == got[k].2,
            decreases self.entries.len() - i,
        {
            let e = &self.entries[i];
            proof {
                let rest = es.subrange(i as int, es.len() as int);
                assert(rest[0] == es[i as int]);
                assert(es[i as int] == entry_view(self.entries@[i as int]));
                assert(rest.drop_first() =~= es.subrange(i + 1, es.len() as int));
            }
            if same_text(group_id, &e.group_id) {
                r.push(((e.topic.clone(), e.partition), e.offset));
                proof {
                    let x = (e.topic@, e.partition, e.offset);
                    assert(got.push(x) + group_offsets(es.subrange(i + 1, es.len() as int), group_id@)
                        =~= got + (seq![x] + group_offsets(es.subrange(i + 1, es.len() as int), group_id@)));
                    got = got.push(x);
                }
            }
            i = i + 1;
        }
        proof {
            assert(es.subrange(es.len() as int, es.len() as int) =~= Seq::<OffsetEntry>::empty());
            assert(got + Seq::<(Seq<char>, u32, u64)>::empty() =~= got);
        }
        r
    }

    /// Forgets every offset of group `group_id`.
    pub fn delete_group(&mut self, group_id: &str)
        requires
            old(self).wf(),
        ensures
            final(self).wf(),
            final(self)@ == without_group(old(self)@, group_id@),
            final(self).spec_data_dir() == old(self).spec_data_dir(),
    {
        let ghost es = self@;
        let mut pending: Vec<CommittedOffset> = Vec::new();
        std::mem::swap(&mut pending, &mut self.entries);
        let ghost n = pending.len();
        let mut i: usize = 0;
        proof {
            assert(pending@.map_values(|e: CommittedOffset| entry_view(e)) =~= es);
            assert(self@ =~= Seq::<OffsetEntry>::empty());
            assert(Seq::<OffsetEntry>::empty() + without_group(es, group_id@) =~= without_group(es, group_id@));
            assert(es.subrange(0, n as int) =~= es);
        }
        while pending.len() > 0
            invariant
                i <= n,
                n == es.len(),
                pending@.map_values(|e: CommittedOffset| entry_view(e)) =~= es.subrange(i as int, n as int),
                without_group(es, group_id@) == self@ + without_group(es.subrange(i as int, n as int), group_id@),
                self.data_dir@ == old(self).spec_data_dir(),
            decreases pending.len(),
        {
            let ghost before = pending@;
            let ghost kept = self@;
            let e = pending.remove(0);
            proof {
                assert(before.map_values(|x: CommittedOffset| entry_view(x)).len() == before.len());
                assert(i < n);
                let rest = es.subrange(i as int, n as int);
                assert(before.map_values(|x: CommittedOffset| entry_view(x))[0] == entry_view(before[0]));
                assert(rest[0] == es[i as int]);
                assert(entry_view(e) == es[i as int]);
                assert(rest.drop_first() =~= es.subrange(i + 1, n as int));
                assert forall|q: int| 0 <= q < pending@.len() implies #[trigger] entry_view(pending@[q]) == es.subrange(i + 1, n as int)[q] by {
                    assert(pending@[q] == before[q + 1]);
                    assert(before.map_values(|x: CommittedOffset| entry_view(x))[q + 1] == entry_view(before[q + 1]));
                    assert(rest[q + 1] == es[i + 1 + q]);
                }
                assert(pending@.map_values(|x: CommittedOffset| entry_view(x)) =~= es.subrange(i + 1, n as int));
            }
            if !same_text(group_id, &e.group_id) {
                let ghost ev = entry_view(e);
                self.entries.push(e);
                proof {
                    assert(self@ =~= kept.push(ev));
                    assert(kept + (seq![ev] + without_group(es.subrange(i + 1, n as int), group_id@))
                        =~= self@ + without_group(es.subrange(i + 1, n as int), group_id@));
                }
            }
            i = i + 1;
        }
        proof {
            assert(es.subrange(n as int, n as int) =~= Seq::<OffsetEntry>::empty());
            assert(self@ + Seq::<OffsetEntry>::empty() =~= self@);
            lemma_without_group_unique(es, group_id@);
        }
    }

    /// The text of group `group_id`'s offsets file: a line
    /// `topic:partition=offset` per offset of the group, in order.
    pub fn group_file_text(&self, group_id: &str) -> (r: String)
        ensures
            r@ == group_text(self@, group_id@),
    {
        let ghost es = self@;
        let mut r = String::new();
        let mut i: usize = 0;
        proof {
            assert(es.subrange(0, es.len() as int) =~= es);
            assert(Seq::<char>::empty() + group_text(es, group_id@) =~= group_text(es, group_id@));
        }
        while i < self.entries.len()
            invariant
                i <= self.entries.len(),
                es == self@,
                es.len() == self.entries.len(),
                group_text(es, group_id@) == r@ + group_text(es.subrange(i as int, es.len() as int), group_id@),
            decreases self.entries.len() - i,
        {
            let e = &self.entries[i];
            proof {
                let rest = es.subrange(i as int, es.len() as int);
                assert(rest[0] == es[i as int]);
                assert(es[i as int] == entry_view(self.entries@[i as int]));
                assert(rest.drop_first() =~= es.subrange(i + 1, es.len() as int));
            }
            if same_text(group_id, &e.group_id) {
                let ghost before = r@;
                r.append(e.topic.as_str());
                r.append(":");
                r.append(u64_decimal(e.partition as u64).as_str());
                r.append("=");
                r.append(u64_decimal(e.offset).as_str());
                r.append("\n");
                proof {
                    reveal_strlit(":");
                    reveal_strlit("=");
                    reveal_strlit("\n");
                    let line = offset_line(e.topic@, e.partition, e.offset);
                    assert(r@ =~= before + line);
                    assert(before + (line + group_text(es.subrange(i + 1, es.len() as int), group_id@))
                        =~= r@ + group_text(es.subrange(i + 1, es.len() as int), group_id@));
                }
            }
            i = i + 1;
        }
        proof {
            assert(es.subrange(es.len() as int, es.len() as int) =~= Seq::<OffsetEntry>::empty());
            assert(r@ + Seq::<char>::empty() =~= r@);
        }
        r
    }

    /// Commits, in file order, the offsets that group `group_id`'s file
    /// `text` holds.
    pub fn load_group(&mut self, group_id: &str, text: &str)
        requires
            old(self).wf(),
        ensures
            final(self).wf(),
            final(self)@ == with_loaded(old(self)@, group_id@, parse_offsets(text@)),
            final(self).spec_data_dir() == old(self).spec_data_dir(),
    {
        let read = parse_offsets_text(text);
        let ghost ps = parse_offsets(text@);
        let mut i: usize = 0;
        proof {
            assert(ps.subrange(0, ps.len() as int) =~= ps);
        }
        while i < read.len()
            invariant
                i <= read.len(),
                read@.len() == ps.len(),
                forall|k: int| 0 <= k < read@.len() ==> read@[k].0@ == (#[trigger] ps[k]).0 && read@[k].1 == ps[k].1 && read@[k].2 == ps[k].2,
                self.wf(),
                with_loaded(old(self)@, group_id@, ps) == with_loaded(self@, group_id@, ps.subrange(i as int, ps.len() as int)),
                self.data_dir@ == old(self).spec_data_dir(),
            decreases read.len() - i,
        {
            let e = &read[i];
            proof {
                let rest = ps.subrange(i as int, ps.len() as int);
                assert(rest[0] == ps[i as int]);
                assert(rest.drop_first() =~= ps.subrange(i + 1, ps.len() as int));
            }
            self.commit_offset(group_id, e.0.as_str(), e.1, e.2);
            i = i + 1;
        }
        proof {
            assert(ps.subrange(ps.len() as int, ps.len() as int) =~= Seq::<(Seq<char>, u32, u64)>::empty());
        }
    }
}

/// Dropping a group's offsets keeps the keys distinct.
proof fn lemma_without_group_unique(es: Seq<OffsetEntry>, g: Seq<char>)
    requires
        unique_keys(es),
    ensures
        unique_keys(without_group(es, g)),
        forall|x: OffsetEntry| without_group(es, g).contains(x) ==> es.contains(x),
    decreases es.len(),
{
    if es.len() > 0 {
        let rest = es.drop_first();
        assert(unique_keys(rest)) by {
            assert forall|a: int, b: int| 0 <= a < b < rest.len() implies !((#[trigger] rest[a]).0 == (#[trigger] rest[b]).0
                && rest[a].1 == rest[b].1 && rest[a].2 == rest[b].2) by {
                assert(rest[a] == es[a + 1] && rest[b] == es[b + 1]);
            }
        }
        lemma_without_group_unique(rest, g);
        let w = without_group(rest, g);
        assert forall|x: OffsetEntry| without_group(es, g).contains(x) implies es.contains(x) by {
            if es[0].0 == g {
                assert(without_group(es, g) == w);
                assert(w.contains(x));
                assert(rest.contains(x));
                let k = choose|k: int| 0 <= k < rest.len() && rest[k] == x;
                assert(es[k + 1] == x);
            } else {
                let out = seq![es[0]] + w;
                assert(without_group(es, g) == out);
                let k = choose|k: int| 0 <= k < out.len() && out[k] == x;
                if k == 0 {
                    assert(es[0] == x);
                } else {
                    assert(without_group(es, g) == out);
                    assert(out[k] == w[k - 1]);
                    assert(w.contains(x));
                    assert(rest.contains(x));
                    let k2 = choose|k2: int| 0 <= k2 < rest.len() && rest[k2] == x;
                    assert(es[k2 + 1] == x);
                }
            }
        }
        if es[0].0 != g {
            let out = seq![es[0]] + w;
            assert forall|a: int, b: int| 0 <= a < b < out.len() implies !((#[trigger] out[a]).0 == (#[trigger] out[b]).0
                && out[a].1 == out[b].1 && out[a].2 == out[b].2) by {
                if a == 0 {
                    assert(out[b] == w[b - 1]);
                    assert(w.contains(w[b - 1]));
                    assert(rest.contains(w[b - 1]));
                    let k = choose|k: int| 0 <= k < rest.len() && rest[k] == w[b - 1];
                    assert(es[k + 1] == out[b]);
                    assert(!(es[0].0 == es[k + 1].0 && es[0].1 == es[k + 1].1 && es[0].2 == es[k + 1].2));
                } else {
                    assert(out[a] == w[a - 1] && out[b] == w[b - 1]);
                }
            }
        }
    }
}

/// The first position of `c` in `a + b`: in `a` when `a` holds it, else
/// in `b`, shifted.
proof fn lemma_first_index_append(a: Seq<char>, b: Seq<char>, c: char)
    ensures
        first_index(a + b, c) == if a.contains(c) {
            first_index(a, c)
        } else {
            match first_index(b, c) {
                Some(i) => Some(i + a.len()),
                None => None,
            }
        },
    decreases a.len(),
{
    if a.len() == 0 {
        assert(a + b =~= b);
    } else {
        assert((a + b).drop_first() =~= a.drop_first() + b);
        assert((a + b)[0] == a[0]);
        lemma_first_index_append(a.drop_first(), b, c);
        if a[0] != c {
            assert(a.contains(c) == a.drop_first().contains(c)) by {
                if a.contains(c) {
                    let k = choose|k: int| 0 <= k < a.len() && a[k] == c;
                    assert(a.drop_first()[k - 1] == c);
                }
                if a.drop_first().contains(c) {
                    let k = choose|k: int| 0 <= k < a.drop_first().len() && a.drop_first()[k] == c;
                    assert(a[k + 1] == c);
                }
            }
        } else {
            assert(a.contains(c)) by {
                assert(a[0] == c);
            }
        }
    }
}

/// The lines of a line `l`, its line feed and the text `rest`.
proof fn lemma_lines_of_line(cur: Seq<char>, l: Seq<char>, rest: Seq<char>)
    requires
        !l.contains('\n'),
    ensures
        lines_from(l + seq!['\n'] + rest, cur) == seq![strip_cr(cur + l)] + lines_from(rest, Seq::empty()),
    decreases l.len(),
{
    let s = l + seq!['\n'] + rest;
    if l.len() == 0 {
        assert(s[0] == '\n');
        assert(s.drop_first() =~= rest);
        assert(cur + l =~= cur);
    } else {
        assert(s[0] == l[0]);
        assert(l[0] != '\n') by {
            if l[0] == '\n' {
                assert(l.contains('\n'));
            }
        }
        assert(s.drop_first() =~= l.drop_first() + seq!['\n'] + rest);
        assert(!l.drop_first().contains('\n')) by {
            if l.drop_first().contains('\n') {
                let k = choose|k: int| 0 <= k < l.drop_first().len() && l.drop_first()[k] == '\n';
                assert(l[k + 1] == '\n');
            }
        }
        lemma_lines_of_line(cur.push(l[0]), l.drop_first(), rest);
        assert(cur.push(l[0]) + l.drop_first() =~= cur + l);
    }
}

/// Whether a topic name can stand in an offsets file and be read back:
/// it holds no `:`, `=` or line feed.
pub open spec fn plain_topic(t: Seq<char>) -> bool {
    !t.contains(':') && !t.contains('=') && !t.contains('\n')
}

/// Digits are neither `:`, `=` nor a line feed, nor a carriage return.
proof fn lemma_digits_plain(d: Seq<char>)
    requires
        all_digits(d),
    ensures
        !d.contains(':'),
        !d.contains('='),
        !d.contains('\n'),
        d.len() > 0 ==> d.last() != '\r',
{
    if d.contains(':') {
        let k = choose|k: int| 0 <= k < d.len() && d[k] == ':';
        assert(is_digit(d[k]));
    }
    if d.contains('=') {
        let k = choose|k: int| 0 <= k < d.len() && d[k] == '=';
        assert(is_digit(d[k]));
    }
    if d.contains('\n') {
        let k = choose|k: int| 0 <= k < d.len() && d[k] == '\n';
        assert(is_digit(d[k]));
    }
    if d.len() > 0 {
        assert(is_digit(d[d.len() - 1]));
    }
}

/// Whether `a + b` holds `c`.
proof fn lemma_contains_append(a: Seq<char>, b: Seq<char>, c: char)
    ensures
        (a + b).contains(c) == (a.contains(c) || b.contains(c)),
{
    if (a + b).contains(c) {
        let k = choose|k: int| 0 <= k < (a + b).len() && (a + b)[k] == c;
        if k < a.len() {
            assert(a[k] == c);
        } else {
            assert(b[k - a.len()] == c);
        }
    }
    if a.contains(c) {
        let k = choose|k: int| 0 <= k < a.len() && a[k] == c;
        assert((a + b)[k] == c);
    }
    if b.contains(c) {
        let k = choose|k: int| 0 <= k < b.len() && b[k] == c;
        assert((a + b)[k + a.len()] == c);
    }
}

/// A line written for an offset reads back as that offset.
proof fn lemma_parse_offset_line(t: Seq<char>, p: u32, o: u64)
    requires
        plain_topic(t),
    ensures
        parse_line(offset_line(t, p, o).drop_last()) == Some((t, p, o)),
        offset_line(t, p, o).drop_last().last() != '\r',
        !offset_line(t, p, o).drop_last().contains('\n'),
        offset_line(t, p, o) == offset_line(t, p, o).drop_last() + seq!['\n'],
{
    let dp = decimal_text(p as nat);
    let d_o = decimal_text(o as nat);
    lemma_decimal_text_digits(p as nat);
    lemma_decimal_text_digits(o as nat);
    lemma_digits_plain(dp);
    lemma_digits_plain(d_o);
    lemma_parse_decimal_text(p as nat, u32::MAX as nat);
    lemma_parse_decimal_text(o as nat, u64::MAX as nat);
    reveal_strlit(":");
    reveal_strlit("=");
    reveal_strlit("\n");
    let colon = seq![':'];
    let eq = seq!['='];
    let key = t + colon + dp;
    let line = key + eq + d_o;
    assert(offset_line(t, p, o) =~= line + seq!['\n']);
    assert(offset_line(t, p, o).drop_last() =~= line);
    assert(!colon.contains('=') && !colon.contains('\n')) by {
        if colon.contains('=') {
            let k = choose|k: int| 0 <= k < colon.len() && colon[k] == '=';
        }
        if colon.contains('\n') {
            let k = choose|k: int| 0 <= k < colon.len() && colon[k] == '\n';
        }
    }
    assert(eq.contains('=')) by {
        assert(eq[0] == '=');
    }
    assert(!eq.contains('\n')) by {
        if eq.contains('\n') {
            let k = choose|k: int| 0 <= k < eq.len() && eq[k] == '\n';
        }
    }
    assert(colon.contains(':')) by {
        assert(colon[0] == ':');
    }
    // the first '=' ends the key
    lemma_contains_append(t, colon, '=');
    lemma_contains_append(t + colon, dp, '=');
    lemma_first_index_append(key, eq + d_o, '=');
    lemma_first_index_append(eq, d_o, '=');
    assert(line =~= key + (eq + d_o));
    assert(first_index(eq, '=') == Some(0int)) by {
        assert(eq[0] == '=');
    }
    assert(first_index(line, '=') == Some(key.len() as int));
    assert(line.subrange(0, key.len() as int) =~= key);
    assert(line.subrange(key.len() as int + 1, line.len() as int) =~= d_o);
    // the first ':' ends the topic
    lemma_first_index_append(t, colon + dp, ':');
    lemma_first_index_append(colon, dp, ':');
    assert(key =~= t + (colon + dp));
    assert(first_index(colon, ':') == Some(0int)) by {
        assert(colon[0] == ':');
    }
    assert(first_index(key, ':') == Some(t.len() as int));
    assert(key.subrange(0, t.len() as int) =~= t);
    assert(key.subrange(t.len() as int + 1, key.len() as int) =~= dp);
    // no line feed, and the line ends with a digit
    lemma_contains_append(t, colon, '\n');
    lemma_contains_append(t + colon, dp, '\n');
    lemma_contains_append(key, eq, '\n');
    lemma_contains_append(key + eq, d_o, '\n');
    assert(line.last() == d_o.last());
}

/// Writing a group's offsets file and reading it back gives the group's
/// offsets, in order, when no topic name holds `:`, `=` or a line feed.
pub proof fn lemma_offsets_file_roundtrip(es: Seq<OffsetEntry>, g: Seq<char>)
    requires
        forall|i: int| 0 <= i < es.len() && (#[trigger] es[i]).0 == g ==> plain_topic(es[i].1),
    ensures
        parse_offsets(group_text(es, g)) == group_offsets(es, g),
    decreases es.len(),
{
    if es.len() == 0 {
        assert(lines_from(Seq::<char>::empty(), Seq::<char>::empty()) == Seq::<Seq<char>>::empty());
    } else {
        let rest = es.drop_first();
        assert forall|i: int| 0 <= i < rest.len() && (#[trigger] rest[i]).0 == g implies plain_topic(rest[i].1) by {
            assert(rest[i] == es[i + 1]);
        }
        lemma_offsets_file_roundtrip(rest, g);
        if es[0].0 == g {
            let e = es[0];
            lemma_parse_offset_line(e.1, e.2, e.3);
            let l = offset_line(e.1, e.2, e.3).drop_last();
            let rt = group_text(rest, g);
            assert(group_text(es, g) =~= l + seq!['\n'] + rt);
            lemma_lines_of_line(Seq::empty(), l, rt);
            assert(Seq::<char>::empty() + l =~= l);
            let ls = seq![l] + lines_from(rt, Seq::empty());
            assert(ls[0] == l);
            assert(ls.drop_first() =~= lines_from(rt, Seq::empty()));
        }
    }
}

/// A committed offset reads back; the other offsets stay as they were.
pub proof fn lemma_commit_then_fetch(es: Seq<OffsetEntry>, g: Seq<char>, t: Seq<char>, p: u32, o: u64, g2: Seq<char>, t2: Seq<char>, p2: u32)
    requires
        unique_keys(es),
    ensures
        unique_keys(with_commit(es, g, t, p, o)),
        committed_offset(with_commit(es, g, t, p, o), g, t, p) == Some(o),
        !(g2 == g && t2 == t && p2 == p) ==> committed_offset(with_commit(es, g, t, p, o), g2, t2, p2) == committed_offset(es, g2, t2, p2),
{
    let ns = with_commit(es, g, t, p, o);
    match entry_index(es, g, t, p) {
        Some(i) => {
            assert(ns[i] == (g, t, p, o));
            assert(ns.len() == es.len());
        },
        None => {
            assert(ns[es.len() as int] == (g, t, p, o));
        },
    }
    assert(unique_keys(ns)) by {
        assert forall|a: int, b: int| 0 <= a < b < ns.len() implies !((#[trigger] ns[a]).0 == (#[trigger] ns[b]).0
            && ns[a].1 == ns[b].1 && ns[a].2 == ns[b].2) by {
            match entry_index(es, g, t, p) {
                Some(i) => {
                    assert(!(es[a].0 == es[b].0 && es[a].1 == es[b].1 && es[a].2 == es[b].2));
                },
                None => {
                    if b == es.len() {
                        assert(ns[a] == es[a]);
                    }
                },
            }
        }
    }
    let k = match entry_index(es, g, t, p) {
        Some(i) => i,
        None => es.len() as int,
    };
    lemma_entry_index(ns, k);
    if !(g2 == g && t2 == t && p2 == p) {
        match entry_index(es, g2, t2, p2) {
            Some(j) => {
                assert(ns[j] == es[j]);
                lemma_entry_index(ns, j);
            },
            None => {
                if exists|x: int| 0 <= x < ns.len() && (#[trigger] ns[x]).0 == g2 && ns[x].1 == t2 && ns[x].2 == p2 {
                    let x = choose|x: int| 0 <= x < ns.len() && (#[trigger] ns[x]).0 == g2 && ns[x].1 == t2 && ns[x].2 == p2;
                    if x != k {
                        assert(es[x] == ns[x]);
                    }
                }
            },
        }
    }
}

/// Looking an offset up from the front: the first entry when it has the
/// key (then the rest does not), else the rest.
proof fn lemma_committed_first(es: Seq<OffsetEntry>, g: Seq<char>, t: Seq<char>, p: u32)
    requires
        unique_keys(es),
        es.len() > 0,
    ensures
        unique_keys(es.drop_first()),
        (es[0].0 == g && es[0].1 == t && es[0].2 == p) ==> committed_offset(es, g, t, p) == Some(
            es[0].3,
        ) && committed_offset(es.drop_first(), g, t, p) is None,
        !(es[0].0 == g && es[0].1 == t && es[0].2 == p) ==> committed_offset(es, g, t, p)
            == committed_offset(es.drop_first(), g, t, p),
{
    let rest = es.drop_first();
    assert forall|a: int, b: int| 0 <= a < b < rest.len() implies !((#[trigger] rest[a]).0 == (
    #[trigger] rest[b]).0 && rest[a].1 == rest[b].1 && rest[a].2 == rest[b].2) by {
        assert(rest[a] == es[a + 1] && rest[b] == es[b + 1]);
    }
    if es[0].0 == g && es[0].1 == t && es[0].2 == p {
        lemma_entry_index(es, 0);
        if exists|i: int| 0 <= i < rest.len() && (#[trigger] rest[i]).0 == g && rest[i].1 == t && rest[i].2 == p {
            let i = choose|i: int| 0 <= i < rest.len() && (#[trigger] rest[i]).0 == g && rest[i].1 == t && rest[i].2 == p;
            assert(rest[i] == es[i + 1]);
            assert(!(es[0].0 == es[i + 1].0 && es[0].1 == es[i + 1].1 && es[0].2 == es[i + 1].2));
        }
    } else {
        if exists|i: int| 0 <= i < es.len() && (#[trigger] es[i]).0 == g && es[i].1 == t && es[i].2 == p {
            let i = choose|i: int| 0 <= i < es.len() && (#[trigger] es[i]).0 == g && es[i].1 == t && es[i].2 == p;
            assert(i > 0);
            lemma_entry_index(es, i);
            assert(rest[i - 1] == es[i]);
            lemma_entry_index(rest, i - 1);
        } else {
            if exists|i: int| 0 <= i < rest.len() && (#[trigger] rest[i]).0 == g && rest[i].1 == t && rest[i].2 == p {
                let i = choose|i: int| 0 <= i < rest.len() && (#[trigger] rest[i]).0 == g && rest[i].1 == t && rest[i].2 == p;
                assert(rest[i] == es[i + 1]);
            }
        }
    }
}

/// Committing a group's offsets, in order, over offsets `fs`: each key of
/// the group that `es` holds ends with its offset in `es`, the others keep
/// theirs in `fs`.
proof fn lemma_loaded_group(es: Seq<OffsetEntry>, fs: Seq<OffsetEntry>, g: Seq<char>, t: Seq<char>, p: u32)
    requires
        unique_keys(es),
        unique_keys(fs),
    ensures
        committed_offset(with_loaded(fs, g, group_offsets(es, g)), g, t, p) == match committed_offset(
            es,
            g,
            t,
            p,
        ) {
            Some(o) => Some(o),
            None => committed_offset(fs, g, t, p),
        },
    decreases es.len(),
{
    if es.len() > 0 {
        let rest = es.drop_first();
        lemma_committed_first(es, g, t, p);
        if es[0].0 == g {
            let e = es[0];
            let fs2 = with_commit(fs, g, e.1, e.2, e.3);
            lemma_commit_then_fetch(fs, g, e.1, e.2, e.3, g, t, p);
            lemma_loaded_group(rest, fs2, g, t, p);
            let read = group_offsets(es, g);
            assert(read == seq![(e.1, e.2, e.3)] + group_offsets(rest, g));
            assert(read[0] == (e.1, e.2, e.3));
            assert(read.drop_first() =~= group_offsets(rest, g));
        } else {
            lemma_loaded_group(rest, fs, g, t, p);
        }
    }
}

/// Reloading a group: its offsets file, written from committed offsets `es`
/// and read back into offsets `fs` that hold none of the group's (a fresh
/// manager holds none at all), gives each topic and partition of the group
/// the offset last committed for it, and nothing for the others. Topic
/// names must hold no `:`, `=` or line feed.
pub proof fn lemma_offsets_reload(es: Seq<OffsetEntry>, fs: Seq<OffsetEntry>, g: Seq<char>, t: Seq<char>, p: u32)
    requires
        unique_keys(es),
        unique_keys(fs),
        forall|i: int| 0 <= i < es.len() && (#[trigger] es[i]).0 == g ==> plain_topic(es[i].1),
        forall|i: int| 0 <= i < fs.len() ==> (#[trigger] fs[i]).0 != g,
    ensures
        committed_offset(with_loaded(fs, g, parse_offsets(group_text(es, g))), g, t, p) == committed_offset(
            es,
            g,
            t,
            p,
        ),
{
    lemma_offsets_file_roundtrip(es, g);
    lemma_loaded_group(es, fs, g, t, p);
    if exists|i: int| 0 <= i < fs.len() && (#[trigger] fs[i]).0 == g && fs[i].1 == t && fs[i].2 == p {
        let i = choose|i: int| 0 <= i < fs.len() && (#[trigger] fs[i]).0 == g && fs[i].1 == t && fs[i].2 == p;
        assert(fs[i].0 != g);
    }
}

} // verus!
