use vstd::prelude::*;
use crate::models::qd::{QD, QuestionView};
use crate::models::rr::{RR, RecordView};
use crate::utils::name_serde::{DOT, split_bytes, lemma_split_bytes_nonempty, lemma_split_step, utf8_str};
use vstd::string::StringSliceAdditionalSpecFns;
use vstd::utf8::*;

verus! {

/// One entry of the route table: the question to answer and the record to
/// answer it with.
#[derive(Debug)]
pub struct RouteKey {
    pub qd: QD,
    pub rr: RR,
}

/// The route table as configured: its entries in order.
#[derive(Debug)]
pub struct RouteConfig {
    pub route: Vec<RouteKey>,
}

impl View for RouteKey {
    type V = (QuestionView, RecordView);

    open spec fn view(&self) -> (QuestionView, RecordView) {
        (self.qd@, self.rr@)
    }
}

/// The map that inserting the pairs of `entries` one after the other gives:
/// a later pair replaces an earlier one with the same question.
pub open spec fn insert_all(entries: Seq<(QuestionView, RecordView)>) -> Map<
    QuestionView,
    RecordView,
>
    decreases entries.len(),
{
    if entries.len() == 0 {
        Map::empty()
    } else {
        insert_all(entries.drop_last()).insert(entries.last().0, entries.last().1)
    }
}

/// No question occurs twice among the pairs.
pub open spec fn distinct_questions(entries: Seq<(QuestionView, RecordView)>) -> bool {
    forall|i: int, j: int|
        0 <= i < entries.len() && 0 <= j < entries.len() && i != j ==> #[trigger] entries[i].0
            != #[trigger] entries[j].0
}

/// A table built from entries answers exactly the questions of the
/// entries: `insert_all(entries)` holds a question iff some pair has it.
pub proof fn law_routed_questions(entries: Seq<(QuestionView, RecordView)>, q: QuestionView)
    ensures
        insert_all(entries).contains_key(q) <==> exists|i: int|
            0 <= i < entries.len() && #[trigger] entries[i].0 == q,
    decreases entries.len(),
{
    if entries.len() > 0 {
        let prefix = entries.drop_last();
        law_routed_questions(prefix, q);
        if insert_all(entries).contains_key(q) && entries.last().0 != q {
            let i = choose|i: int| 0 <= i < prefix.len() && #[trigger] prefix[i].0 == q;
            assert(entries[i].0 == q);
        }
        if exists|i: int| 0 <= i < entries.len() && #[trigger] entries[i].0 == q {
            let i = choose|i: int| 0 <= i < entries.len() && #[trigger] entries[i].0 == q;
            if i < entries.len() - 1 {
                assert(prefix[i].0 == q);
            }
        }
    }
}

/// A table built from entries answers a question with the record of its
/// last entry: later entries for the same question replace earlier ones.
pub proof fn law_last_entry_wins(entries: Seq<(QuestionView, RecordView)>, j: int)
    requires
        0 <= j < entries.len(),
        forall|k: int| j < k < entries.len() ==> #[trigger] entries[k].0 != entries[j].0,
    ensures
        insert_all(entries).contains_key(entries[j].0),
        insert_all(entries)[entries[j].0] == entries[j].1,
    decreases entries.len(),
{
    if j < entries.len() - 1 {
        let prefix = entries.drop_last();
        assert(entries[entries.len() - 1].0 != entries[j].0);
        assert forall|k: int| j < k < prefix.len() implies #[trigger] prefix[k].0 != prefix[j].0 by {
            assert(entries[k].0 != entries[j].0);
        }
        law_last_entry_wins(prefix, j);
    }
}

/// Replacing the record of a pair keeps `insert_all` a plain insert when no
/// question occurs twice.
proof fn lemma_insert_all_update(
    entries: Seq<(QuestionView, RecordView)>,
    i: int,
    r: RecordView,
)
    requires
        distinct_questions(entries),
        0 <= i < entries.len(),
    ensures
        distinct_questions(entries.update(i, (entries[i].0, r))),
        insert_all(entries.update(i, (entries[i].0, r))) =~= insert_all(entries).insert(
            entries[i].0,
            r,
        ),
{
    let updated = entries.update(i, (entries[i].0, r));
    assert(distinct_questions(updated)) by {
        assert forall|a: int, b: int|
            0 <= a < updated.len() && 0 <= b < updated.len() && a != b implies #[trigger] updated[a].0
            != #[trigger] updated[b].0 by {
            assert(updated[a].0 == entries[a].0);
            assert(updated[b].0 == entries[b].0);
        }
    }
    let m1 = insert_all(updated);
    let m2 = insert_all(entries).insert(entries[i].0, r);
    assert forall|q: QuestionView| m1.contains_key(q) <==> m2.contains_key(q) by {
        law_routed_questions(updated, q);
        law_routed_questions(entries, q);
        if exists|k: int| 0 <= k < entries.len() && #[trigger] entries[k].0 == q {
            let k = choose|k: int| 0 <= k < entries.len() && #[trigger] entries[k].0 == q;
            assert(updated[k].0 == q);
        }
        if exists|k: int| 0 <= k < updated.len() && #[trigger] updated[k].0 == q {
            let k = choose|k: int| 0 <= k < updated.len() && #[trigger] updated[k].0 == q;
            assert(entries[k].0 == q);
        }
    }
    assert forall|q: QuestionView| #[trigger] m1.contains_key(q) implies m1[q] == m2[q] by {
        law_routed_questions(updated, q);
        let k = choose|k: int| 0 <= k < updated.len() && #[trigger] updated[k].0 == q;
        law_last_entry_wins(updated, k);
        if k != i {
            law_last_entry_wins(entries, k);
        }
    }
}

/// The pairs of a list of entries, as plain values.
pub open spec fn pairs_of(entries: Seq<(QD, RR)>) -> Seq<(QuestionView, RecordView)> {
    entries.map_values(|e: (QD, RR)| (e.0@, e.1@))
}

/// Where `entries` holds `qd`, if it does.
fn find_in(entries: &Vec<(QD, RR)>, qd: &QD) -> (idx: Option<usize>)
    ensures
        match idx {
            Some(i) => i < entries@.len() && pairs_of(entries@)[i as int].0 == qd@,
            None => forall|k: int|
                0 <= k < entries@.len() ==> #[trigger] pairs_of(entries@)[k].0 != qd@,
        },
{
    let mut i: usize = 0;
    while i < entries.len()
        invariant
            i <= entries@.len(),
            forall|k: int| 0 <= k < i ==> #[trigger] pairs_of(entries@)[k].0 != qd@,
        decreases entries@.len() - i,
    {
        if entries[i].0.same(qd) {
            return Some(i);
        }
        i = i + 1;
    }
    None
}

/// A route table: each question at most once, with the record that answers it.
///
/// The pairs are kept in a `Vec` and searched in order. A std `HashMap` keyed
/// by `QD` would give no usable contract here: vstd specifies `HashMap` only
/// for keys whose hashing and equality it models (integers and the like), and
/// `QD` holds a `String`.
pub struct Route {
    entries: Vec<(QD, RR)>,
}

impl Route {
    #[verifier::type_invariant]
    spec fn well_formed(&self) -> bool {
        distinct_questions(pairs_of(self.entries@))
    }
}

impl View for Route {
    type V = Map<QuestionView, RecordView>;

    closed spec fn view(&self) -> Map<QuestionView, RecordView> {
        insert_all(pairs_of(self.entries@))
    }
}

impl Route {
    /// An empty table.
    pub fn new() -> (route: Self)
        ensures
            route@ == Map::<QuestionView, RecordView>::empty(),
    {
        let route = Route { entries: Vec::new() };
        assert(pairs_of(route.entries@) =~= Seq::<(QuestionView, RecordView)>::empty());
        route
    }

    /// Sets the record that answers `qd`, replacing the one it had.
    pub fn insert(&mut self, qd: QD, rr: RR)
        ensures
            final(self)@ == old(self)@.insert(qd@, rr@),
    {
        proof {
            use_type_invariant(&*self);
        }
        let mut entries: Vec<(QD, RR)> = Vec::new();
        proof {
            assert(pairs_of(entries@) =~= Seq::<(QuestionView, RecordView)>::empty());
        }
        std::mem::swap(&mut entries, &mut self.entries);
        let ghost old_pairs = pairs_of(entries@);
        let ghost key = qd@;
        let ghost val = rr@;
        match find_in(&entries, &qd) {
            Some(i) => {
                entries.set(i, (qd, rr));
                proof {
                    lemma_insert_all_update(old_pairs, i as int, val);
                    assert(pairs_of(entries@) =~= old_pairs.update(i as int, (old_pairs[i as int].0, val)));
                }
            },
            None => {
                entries.push((qd, rr));
                proof {
                    let new_pairs = pairs_of(entries@);
                    assert(new_pairs =~= old_pairs.push((key, val)));
                    assert(new_pairs.drop_last() =~= old_pairs);
                    assert(distinct_questions(new_pairs)) by {
                        assert forall|a: int, b: int|
                            0 <= a < new_pairs.len() && 0 <= b < new_pairs.len() && a != b
                            implies #[trigger] new_pairs[a].0 != #[trigger] new_pairs[b].0 by {
                            if a < old_pairs.len() && b < old_pairs.len() {
                                assert(new_pairs[a] == old_pairs[a]);
                                assert(new_pairs[b] == old_pairs[b]);
                            } else if a < old_pairs.len() {
                                assert(new_pairs[a] == old_pairs[a]);
                            } else {
                                assert(new_pairs[b] == old_pairs[b]);
                            }
                        }
                    }
                }
            },
        }
        self.entries = entries;
    }

    /// The record that answers `qd`, if the table has one.
    pub fn get(&self, qd: &QD) -> (rr: Option<&RR>)
        ensures
            match rr {
                Some(r) => self@.contains_key(qd@) && r@ == self@[qd@],
                None => !self@.contains_key(qd@),
            },
    {
        proof {
            use_type_invariant(self);
        }
        let ghost pairs = pairs_of(self.entries@);
        match find_in(&self.entries, qd) {
            Some(i) => {
                proof {
                    assert forall|k: int| i < k < pairs.len() implies #[trigger] pairs[k].0 != pairs[i as int].0 by {
                        assert(pairs[k].0 != pairs[i as int].0);
                    }
                    law_last_entry_wins(pairs, i as int);
                }
                Some(&self.entries[i].1)
            },
            None => {
                proof {
                    law_routed_questions(pairs, qd@);
                }
                None
            },
        }
    }
}

impl RouteConfig {
    /// The table that the entries give, inserted in order: for a question
    /// that occurs more than once, its last entry counts.
    pub fn route(&self) -> (map: Route)
        ensures
            map@ == insert_all(self.route@.map_values(|k: RouteKey| k@)),
    {
        let mut map = Route::new();
        let mut i: usize = 0;
        while i < self.route.len()
            invariant
                i <= self.route@.len(),
                map@ == insert_all(self.route@.take(i as int).map_values(|k: RouteKey| k@)),
            decreases self.route@.len() - i,
        {
            let key = &self.route[i];
            map.insert(key.qd.clone(), key.rr.clone());
            i = i + 1;
            proof {
                let s = self.route@.take(i as int).map_values(|k: RouteKey| k@);
                assert(s.drop_last() =~= self.route@.take(i - 1).map_values(|k: RouteKey| k@));
            }
        }
        assert(self.route@.take(i as int) =~= self.route@);
        map
    }
}


/// The byte of a space, which ends the address of a line of the hosts file.
pub const SPACE: u8 = 0x20;

/// The byte of `+`.
pub const PLUS: u8 = 0x2b;

/// Whether the byte is an ASCII digit.
pub open spec fn is_digit(b: u8) -> bool {
    0x30 <= b <= 0x39
}

/// The number that a string of ASCII digits writes in decimal.
pub open spec fn digits_value(s: Seq<u8>) -> int
    decreases s.len(),
{
    if s.len() == 0 {
        0
    } else {
        digits_value(s.drop_last()) * 10 + (s.last() - 0x30)
    }
}

/// Whether every byte is an ASCII digit.
pub open spec fn all_digits(d: Seq<u8>) -> bool {
    forall|i: int| 0 <= i < d.len() ==> #[trigger] is_digit(d[i])
}

/// The bytes after an optional leading `+`.
pub open spec fn unsigned_digits(s: Seq<u8>) -> Seq<u8> {
    if s.len() > 0 && s[0] == PLUS {
        s.drop_first()
    } else {
        s
    }
}

/// What `u8::from_str` gives for the bytes `s`: an optional `+`, then one or
/// more ASCII digits whose value is at most 255; anything else is an error.
pub open spec fn parse_u8(s: Seq<u8>) -> Option<u8> {
    let d = unsigned_digits(s);
    if d.len() > 0 && all_digits(d) && digits_value(d) <= 255 {
        Some(digits_value(d) as u8)
    } else {
        None
    }
}

/// The bytes that the pieces write, each parsed with `parse_u8`; nothing if
/// one of them does not parse.
pub open spec fn parse_octets(parts: Seq<Seq<u8>>) -> Option<Seq<u8>>
    decreases parts.len(),
{
    if parts.len() == 0 {
        Some(Seq::<u8>::empty())
    } else {
        match (parse_octets(parts.drop_last()), parse_u8(parts.last())) {
            (Some(v), Some(b)) => Some(v.push(b)),
            _ => None,
        }
    }
}

/// The first position at or after `from` where `s` holds the byte `b`.
pub open spec fn find_byte(s: Seq<u8>, b: u8, from: int) -> Option<int>
    decreases s.len() - from,
{
    if from < 0 || from >= s.len() {
        None
    } else if s[from] == b {
        Some(from)
    } else {
        find_byte(s, b, from + 1)
    }
}

/// The route entry that a line `<address> <name>` of a hosts file gives:
/// the question for the name (type A, class IN) and the record of type A,
/// class IN, time to live 0 whose data are the `.`-separated numbers of the
/// address. Nothing when the line has no space or a number does not parse.
pub open spec fn resolv_entry(line: Seq<u8>) -> Option<(QuestionView, RecordView)> {
    match find_byte(line, SPACE, 0) {
        None => None,
        Some(sep) => match parse_octets(split_bytes(line.take(sep), DOT)) {
            None => None,
            Some(ip) => {
                let name = decode_utf8(line.subrange(sep + 1, line.len() as int));
                Some(
                    (
                        QuestionView { qname: name, qtype: 1, qclass: 1 },
                        RecordView { name, rrtype: 1, rrclass: 1, ttl: 0, rdata: ip },
                    ),
                )
            },
        },
    }
}

/// The entries that the lines of a hosts file give, in order: lines of at
/// most one byte are skipped. Nothing when another line gives no entry.
pub open spec fn resolv_entries(lines: Seq<Seq<u8>>) -> Option<Seq<(QuestionView, RecordView)>>
    decreases lines.len(),
{
    if lines.len() == 0 {
        Some(Seq::<(QuestionView, RecordView)>::empty())
    } else {
        match resolv_entries(lines.drop_last()) {
            None => None,
            Some(es) => if lines.last().len() <= 1 {
                Some(es)
            } else {
                match resolv_entry(lines.last()) {
                    None => None,
                    Some(e) => Some(es.push(e)),
                }
            },
        }
    }
}

/// Digits that are all digits keep a value at least that of their prefixes.
proof fn lemma_digits_value_prefix(d: Seq<u8>, j: int)
    requires
        0 <= j <= d.len(),
        all_digits(d),
    ensures
        digits_value(d) >= digits_value(d.take(j)),
        digits_value(d.take(j)) >= 0,
    decreases d.len(),
{
    if j < d.len() {
        let p = d.drop_last();
        assert(p.take(j) =~= d.take(j));
        assert(is_digit(d[d.len() - 1]));
        lemma_digits_value_prefix(p, j);
    } else {
        assert(d.take(j) =~= d);
        if d.len() > 0 {
            lemma_digits_value_prefix(d.drop_last(), d.len() - 1);
            assert(d.drop_last().take(d.len() - 1) =~= d.drop_last());
            assert(is_digit(d[d.len() - 1]));
        }
    }
}

/// Parses the bytes `start..end` of `bytes` as `u8::from_str` does.
fn parse_u8_range(bytes: &[u8], start: usize, end: usize) -> (v: Option<u8>)
    requires
        start <= end <= bytes@.len(),
    ensures
        v == parse_u8(bytes@.subrange(start as int, end as int)),
{
    let ghost s = bytes@.subrange(start as int, end as int);
    let mut k = start;
    if k < end && bytes[k] == PLUS {
        k = k + 1;
    }
    let ghost d = bytes@.subrange(k as int, end as int);
    assert(d == unsigned_digits(s));
    if k == end {
        return None;
    }
    let first = k;
    let mut acc: u16 = 0;
    while k < end
        invariant
            first <= k <= end <= bytes@.len(),
            s == bytes@.subrange(start as int, end as int),
            d == unsigned_digits(s),
            d == bytes@.subrange(first as int, end as int),
            d.len() > 0,
            acc <= 255,
            acc as int == digits_value(d.take(k - first)),
            forall|i: int| 0 <= i < k - first ==> #[trigger] is_digit(d[i]),
        decreases end - k,
    {
        let b = bytes[k];
        assert(d[k - first] == b);
        if b < 0x30 || b > 0x39 {
            assert(!is_digit(d[k - first]));
            assert(!all_digits(d));
            return None;
        }
        let next = acc * 10 + (b - 0x30) as u16;
        assert(d.take(k - first + 1).drop_last() =~= d.take(k - first));
        if next > 255 {
            proof {
                if all_digits(d) {
                    lemma_digits_value_prefix(d, k - first + 1);
                }
            }
            return None;
        }
        acc = next;
        k = k + 1;
    }
    assert(d.take(k - first) =~= d);
    Some(acc as u8)
}

/// Parses the `.`-separated numbers of the bytes `0..end` of `bytes`.
fn parse_address(bytes: &[u8], end: usize) -> (ip: Option<Vec<u8>>)
    requires
        end <= bytes@.len(),
    ensures
        match parse_octets(split_bytes(bytes@.take(end as int), DOT)) {
            Some(v) => ip matches Some(x) && x@ == v,
            None => ip is None,
        },
{
    let mut out: Vec<u8> = Vec::new();
    let mut ok = true;
    let mut start: usize = 0;
    let mut i: usize = 0;
    proof {
        lemma_split_bytes_nonempty(bytes@.take(0), DOT);
        assert(bytes@.take(0) =~= Seq::<u8>::empty());
        let p = split_bytes(bytes@.take(0), DOT);
        assert(p.drop_last() =~= Seq::<Seq<u8>>::empty());
    }
    while i < end
        invariant
            0 <= start <= i <= end <= bytes@.len(),
            split_bytes(bytes@.take(i as int), DOT).len() >= 1,
            ok ==> parse_octets(split_bytes(bytes@.take(i as int), DOT).drop_last()) == Some(out@),
            !ok ==> parse_octets(split_bytes(bytes@.take(i as int), DOT).drop_last()) is None,
            split_bytes(bytes@.take(i as int), DOT).last() == bytes@.subrange(start as int, i as int),
        decreases end - i,
    {
        proof {
            lemma_split_step(bytes@, DOT, start as int, i as int);
        }
        if bytes[i] == DOT {
            if ok {
                match parse_u8_range(bytes, start, i) {
                    Some(b) => out.push(b),
                    None => ok = false,
                }
            }
            start = i + 1;
            i = i + 1;
        } else {
            i = i + 1;
        }
    }
    if !ok {
        return None;
    }
    match parse_u8_range(bytes, start, i) {
        Some(b) => {
            out.push(b);
            Some(out)
        },
        None => None,
    }
}

/// The route entry that a line `<address> <name>` of a hosts file gives; see
/// `resolv_entry`.
pub fn resolv_line(line: &str) -> (entry: Option<RouteKey>)
    ensures
        match resolv_entry(line.spec_bytes()) {
            Some(e) => entry matches Some(k) && k@ == e,
            None => entry is None,
        },
{
    let bytes = line.as_bytes();
    let mut sep: usize = 0;
    while sep < bytes.len() && bytes[sep] != SPACE
        invariant
            sep <= bytes@.len(),
            find_byte(bytes@, SPACE, sep as int) == find_byte(bytes@, SPACE, 0),
        decreases bytes@.len() - sep,
    {
        sep = sep + 1;
    }
    if sep == bytes.len() {
        return None;
    }
    let rdata = match parse_address(bytes, sep) {
        Some(ip) => ip,
        None => {
            return None;
        },
    };
    let tail = &bytes[sep + 1..bytes.len()];
    proof {
        let b = bytes@;
        encode_utf8_valid_utf8(line@);
        is_char_boundary_iff_not_is_continuation_byte(b, sep as int);
        valid_utf8_split(b, sep as int);
        let t = b.subrange(sep as int, b.len() as int);
        assert(t[0] == SPACE);
        assert(pop_first_scalar(t) =~= b.subrange(sep + 1, b.len() as int));
        assert(valid_utf8(tail@));
    }
    let name_str = match utf8_str(tail) {
        Some(s) => s,
        None => {
            return None;
        },
    };
    proof {
        encode_utf8_decode_utf8(name_str@);
    }
    let qd = QD { qname: name_str.to_owned(), qtype: 1, qclass: 1 };
    let rr = RR { name: name_str.to_owned(), rrtype: 1, rrclass: 1, ttl: 0, rdata };
    Some(RouteKey { qd, rr })
}

/// The route table that the lines of a hosts file give: each line of more
/// than one byte adds its entry, a later one replacing an earlier one for the
/// same name. Nothing when a line gives no entry.
pub fn resolv_route(lines: &Vec<String>) -> (route: Option<Route>)
    ensures
        match resolv_entries(lines@.map_values(|l: String| encode_utf8(l@))) {
            Some(es) => route matches Some(r) && r@ == insert_all(es),
            None => route is None,
        },
{
    let ghost all = lines@.map_values(|l: String| encode_utf8(l@));
    let mut route = Route::new();
    let ghost mut es: Seq<(QuestionView, RecordView)> = Seq::empty();
    let mut i: usize = 0;
    while i < lines.len()
        invariant
            i <= lines@.len(),
            all == lines@.map_values(|l: String| encode_utf8(l@)),
            resolv_entries(all.take(i as int)) == Some(es),
            route@ == insert_all(es),
        decreases lines@.len() - i,
    {
        let line = lines[i].as_str();
        let ghost prefix = all.take(i as int);
        assert(all.take(i + 1).drop_last() =~= prefix);
        assert(all.take(i + 1).last() == line.spec_bytes());
        assert(all.take(i + 1).last() == all[i as int]);
        let ghost before = es;
        if line.as_bytes().len() > 1 {
            match resolv_line(line) {
                Some(k) => {
                    let ghost kv = k@;
                    route.insert(k.qd, k.rr);
                    proof {
                        assert(es.push(kv).drop_last() =~= es);
                        es = es.push(kv);
                    }
                },
                None => {
                    proof {
                        lemma_resolv_entries_none(all, i as int + 1);
                    }
                    return None;
                },
            }
        }
        i = i + 1;
        assert(resolv_entries(all.take(i as int)) == Some(es));
    }
    assert(all.take(i as int) =~= all);
    Some(route)
}

/// Every line of a hosts file counts, the first one included: the lines give
/// entries exactly when each line of more than one byte gives one; then the
/// entry of each such line is among them, and each of them is the entry of
/// such a line.
pub proof fn law_every_line_counts(lines: Seq<Seq<u8>>)
    ensures
        resolv_entries(lines) is Some <==> (forall|i: int|
            0 <= i < lines.len() && #[trigger] lines[i].len() > 1 ==> resolv_entry(lines[i]) is Some),
        resolv_entries(lines) matches Some(es) ==> {
            &&& forall|i: int|
                0 <= i < lines.len() && #[trigger] lines[i].len() > 1 ==> es.contains(
                    resolv_entry(lines[i])->0,
                )
            &&& forall|j: int|
                0 <= j < es.len() ==> exists|i: int|
                    0 <= i < lines.len() && lines[i].len() > 1 && #[trigger] resolv_entry(lines[i])
                        == Some(#[trigger] es[j])
        },
    decreases lines.len(),
{
    if lines.len() > 0 {
        let prefix = lines.drop_last();
        let last = lines.last();
        law_every_line_counts(prefix);
        assert forall|i: int| 0 <= i < prefix.len() implies prefix[i] == lines[i] by {}
        if resolv_entries(lines) is Some {
            let es = resolv_entries(lines)->0;
            let pes = resolv_entries(prefix)->0;
            assert forall|i: int|
                0 <= i < lines.len() && #[trigger] lines[i].len() > 1 implies resolv_entry(lines[i]) is Some
                && es.contains(resolv_entry(lines[i])->0) by {
                if i < lines.len() - 1 {
                    assert(prefix[i] == lines[i]);
                    assert(prefix[i].len() > 1);
                    let e = resolv_entry(lines[i])->0;
                    let k = choose|k: int| 0 <= k < pes.len() && pes[k] == e;
                    assert(es[k] == e);
                } else {
                    assert(es[es.len() - 1] == resolv_entry(last)->0);
                }
            }
            assert forall|j: int| 0 <= j < es.len() implies exists|i: int|
                0 <= i < lines.len() && lines[i].len() > 1 && #[trigger] resolv_entry(lines[i])
                    == Some(#[trigger] es[j]) by {
                if j < pes.len() {
                    assert(es[j] == pes[j]);
                    let i = choose|i: int|
                        0 <= i < prefix.len() && prefix[i].len() > 1 && #[trigger] resolv_entry(
                            prefix[i],
                        ) == Some(#[trigger] pes[j]);
                    assert(lines[i] == prefix[i]);
                } else {
                    assert(resolv_entry(lines[lines.len() - 1]) == Some(es[j]));
                }
            }
        } else {
            if resolv_entries(prefix) is Some {
                assert(last.len() > 1 && resolv_entry(last) is None);
                assert(lines[lines.len() - 1] == last);
            } else {
                let i = choose|i: int|
                    0 <= i < prefix.len() && #[trigger] prefix[i].len() > 1 && resolv_entry(prefix[i]) is None;
                assert(lines[i] == prefix[i]);
            }
        }
    }
}

/// A table loaded from a hosts file answers the name of every line.
pub proof fn law_every_line_answered(lines: Seq<Seq<u8>>)
    ensures
        resolv_entries(lines) matches Some(es) ==> forall|i: int|
            0 <= i < lines.len() && #[trigger] lines[i].len() > 1 ==> insert_all(es).contains_key(
                (resolv_entry(lines[i])->0).0,
            ),
{
    law_every_line_counts(lines);
    if let Some(es) = resolv_entries(lines) {
        assert forall|i: int| 0 <= i < lines.len() && #[trigger] lines[i].len() > 1 implies insert_all(
            es,
        ).contains_key((resolv_entry(lines[i])->0).0) by {
            let e = resolv_entry(lines[i])->0;
            let k = choose|k: int| 0 <= k < es.len() && es[k] == e;
            law_routed_questions(es, e.0);
            assert(es[k].0 == e.0);
        }
    }
}

/// Once a prefix of the lines gives no entries, no longer prefix does.
proof fn lemma_resolv_entries_none(lines: Seq<Seq<u8>>, j: int)
    requires
        0 <= j <= lines.len(),
        resolv_entries(lines.take(j)) is None,
    ensures
        resolv_entries(lines) is None,
    decreases lines.len() - j,
{
    if j < lines.len() {
        assert(lines.take(j + 1).drop_last() =~= lines.take(j));
        lemma_resolv_entries_none(lines, j + 1);
    } else {
        assert(lines.take(j) =~= lines);
    }
}

} // verus!
