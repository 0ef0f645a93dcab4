//! The zone that the DNS server answers for, and how it answers.

use hickory_server::proto::rr::{LowerName, Name, RecordType};
use vstd::prelude::*;

use crate::auth::is_acme_token;
use crate::clock::{serial_at, serial_of, utc_seconds, utc_text};
use crate::config::General;
use crate::db::{
    is_uuid_text, kept_rows, law_pruning_does_not_change_what_is_read, law_read_after_update,
    not_older, numbered, pruned, rows_view, tokens, DbPool, TxtRow, TxtView,
};
use crate::limit::{since, SECOND};
use crate::net::{ip_parse, parse_ip, Ip};
use crate::text::{
    ascii_lower, chars_of, concat, copied, ends_with, ends_with_char, full_texts, is_ascii_text,
    is_full, join, joined, lemma_reads_as, lemma_trimmed_end_is, lower, lowercase, number_of,
    parse_number, reads_as, same, split_whitespace, starts_with, text_of, texts, trim_end_char,
    trim_end_matches, words,
};

verus! {

/// The time to live of a static record, in seconds.
pub const STATIC_TTL: u32 = 86400;

/// The time to live of a challenge record, in seconds.
pub const TXT_TTL: u32 = 1;

/// How many answers the cache of challenge records holds.
pub const TXT_CACHE_CAPACITY: u64 = 10_000;

/// For how many seconds it holds an answer.
pub const TXT_CACHE_TTL: u64 = 2;

/// The kinds of records that a zone is made of.
#[derive(Debug, Clone, Copy, PartialEq, Eq, Structural)]
pub enum RecordKind {
    /// A version 4 address.
    A,
    /// A version 6 address.
    Aaaa,
    /// A name server.
    Ns,
    /// An alias.
    Cname,
    /// The start of authority.
    Soa,
    /// Any other kind.
    Other,
}

/// What a record says.
#[derive(Debug, Clone)]
pub enum RecordData {
    /// A version 4 address.
    A(u32),
    /// A version 6 address.
    Aaaa(u128),
    /// The name of a name server.
    Ns(String),
    /// The name that this one is an alias of.
    Cname(String),
    /// The start of authority.
    Soa {
        /// The primary name server.
        mname: String,
        /// The mailbox of the administrator.
        rname: String,
        /// The serial number of the zone.
        serial: u32,
        /// After how many seconds a copy is refreshed.
        refresh: i32,
        /// After how many seconds a failed refresh is tried again.
        retry: i32,
        /// After how many seconds a copy that was not refreshed is void.
        expire: i32,
        /// For how many seconds the absence of a name may be remembered.
        minimum: u32,
    },
}

/// What a record says, as a value.
pub enum DataView {
    /// A version 4 address.
    A(u32),
    /// A version 6 address.
    Aaaa(u128),
    /// The name of a name server.
    Ns(Seq<char>),
    /// The name that this one is an alias of.
    Cname(Seq<char>),
    /// The start of authority: names, serial number, and the four times.
    Soa(Seq<char>, Seq<char>, u32, i32, i32, i32, u32),
}

impl View for RecordData {
    type V = DataView;

    open spec fn view(&self) -> DataView {
        match self {
            RecordData::A(a) => DataView::A(*a),
            RecordData::Aaaa(a) => DataView::Aaaa(*a),
            RecordData::Ns(n) => DataView::Ns(n@),
            RecordData::Cname(n) => DataView::Cname(n@),
            RecordData::Soa { mname, rname, serial, refresh, retry, expire, minimum } => {
                DataView::Soa(mname@, rname@, *serial, *refresh, *retry, *expire, *minimum)
            },
        }
    }
}

impl DataView {
    /// The kind of record that says this.
    pub open spec fn kind(self) -> RecordKind {
        match self {
            DataView::A(_) => RecordKind::A,
            DataView::Aaaa(_) => RecordKind::Aaaa,
            DataView::Ns(_) => RecordKind::Ns,
            DataView::Cname(_) => RecordKind::Cname,
            DataView::Soa(..) => RecordKind::Soa,
        }
    }
}

impl RecordData {
    /// The kind of record that says this.
    pub fn kind(&self) -> (res: RecordKind)
        ensures
            res == self@.kind(),
    {
        match self {
            RecordData::A(_) => RecordKind::A,
            RecordData::Aaaa(_) => RecordKind::Aaaa,
            RecordData::Ns(_) => RecordKind::Ns,
            RecordData::Cname(_) => RecordKind::Cname,
            RecordData::Soa { .. } => RecordKind::Soa,
        }
    }
}

/// One record.
#[derive(Debug, Clone)]
pub struct ZoneRecord {
    /// The name as it was written for this record.
    pub name: String,
    /// What the record says.
    pub data: RecordData,
}

/// One record, as a value.
pub struct ZoneRecordView {
    /// The name as it was written for this record.
    pub name: Seq<char>,
    /// What the record says.
    pub data: DataView,
}

impl View for ZoneRecord {
    type V = ZoneRecordView;

    open spec fn view(&self) -> ZoneRecordView {
        ZoneRecordView { name: self.name@, data: self.data@ }
    }
}

/// The records of one name and one kind.
#[derive(Debug, Clone)]
pub struct RecordGroup {
    /// The name in the form in which names are compared.
    pub owner: String,
    /// The name as it was written first.
    pub name: String,
    /// The kind of the records.
    pub kind: RecordKind,
    /// The time to live of the records.
    pub ttl: u32,
    /// The records, in the order in which they were given.
    pub records: Vec<ZoneRecord>,
}

/// The records of one name and one kind, as a value.
pub struct GroupView {
    /// The name in the form in which names are compared.
    pub owner: Seq<char>,
    /// The name as it was written first.
    pub name: Seq<char>,
    /// The kind of the records.
    pub kind: RecordKind,
    /// The time to live of the records.
    pub ttl: u32,
    /// The records, in the order in which they were given.
    pub records: Seq<ZoneRecordView>,
}

impl View for RecordGroup {
    type V = GroupView;

    open spec fn view(&self) -> GroupView {
        GroupView {
            owner: self.owner@,
            name: self.name@,
            kind: self.kind,
            ttl: self.ttl,
            records: self.records@.map_values(|r: ZoneRecord| r@),
        }
    }
}

/// The contents of a list of groups.
pub open spec fn groups_view(v: Seq<RecordGroup>) -> Seq<GroupView> {
    v.map_values(|g: RecordGroup| g@)
}

/// What a text denotes as a domain name: the text in which the name is shown and the text by
/// which it is compared, or the complaint about it.
pub uninterp spec fn dns_name_parse(s: Seq<char>) -> Result<(Seq<char>, Seq<char>), Seq<char>>;

/// The contents of the two texts of a name, or of the complaint.
pub open spec fn name_view(r: Result<(String, String), String>) -> Result<
    (Seq<char>, Seq<char>),
    Seq<char>,
> {
    match r {
        Ok(t) => Ok((t.0@, t.1@)),
        Err(e) => Err(e@),
    }
}

/// Calls `<hickory_proto::rr::Name as FromStr>::from_str` and keeps of the name its `Display`
/// text and the `to_ascii` text of its `to_lowercase`, or the text of the error. The result is a
/// function of the text.
#[verifier::external_body]
fn dns_name(s: &str) -> (res: Result<(String, String), String>)
    ensures
        name_view(res) == dns_name_parse(s@),
{
    match s.parse::<Name>() {
        Ok(n) => Ok((n.to_string(), n.to_lowercase().to_ascii())),
        Err(e) => Err(e.to_string()),
    }
}

/// Calls `<hickory_proto::rr::RecordType as FromStr>::from_str`: it accepts the names of the
/// record types, in capital letters. Which of the other texts it accepts is left unsaid, since
/// no record is made of them.
#[verifier::external_body]
fn record_kind(s: &str) -> (res: Option<RecordKind>)
    ensures
        s@ == "A"@ <==> res == Some(RecordKind::A),
        s@ == "AAAA"@ <==> res == Some(RecordKind::Aaaa),
        s@ == "NS"@ <==> res == Some(RecordKind::Ns),
        s@ == "CNAME"@ <==> res == Some(RecordKind::Cname),
        s@ == "SOA"@ <==> res == Some(RecordKind::Soa),
{
    match s.parse::<RecordType>() {
        Ok(RecordType::A) => Some(RecordKind::A),
        Ok(RecordType::AAAA) => Some(RecordKind::Aaaa),
        Ok(RecordType::NS) => Some(RecordKind::Ns),
        Ok(RecordType::CNAME) => Some(RecordKind::Cname),
        Ok(RecordType::SOA) => Some(RecordKind::Soa),
        Ok(_) => Some(RecordKind::Other),
        Err(_) => None,
    }
}

/// A name written with a dot at its end.
pub open spec fn rooted(s: Seq<char>) -> Seq<char> {
    if s.len() > 0 && s.last() == '.' {
        s
    } else {
        s + "."@
    }
}

/// Writes a name with a dot at its end.
pub fn with_root(s: &str) -> (res: String)
    ensures
        res@ == rooted(s@),
{
    if ends_with_char(s, '.') {
        s.to_owned()
    } else {
        concat(s, ".")
    }
}

/// The name, the type and the data of a record line, as texts: the first word, the second or,
/// where there are four words or more and the second is a number, the third, and the words
/// behind it. A line of fewer than three words is no record.
pub open spec fn line_fields(line: Seq<char>) -> Option<(Seq<char>, Seq<char>, Seq<char>)> {
    let w = words(line);
    if w.len() < 3 {
        None
    } else if w.len() > 3 && number_of(w[1]) is Some && number_of(w[1])->0 <= u32::MAX {
        Some((w[0], w[2], joined(w.skip(3), " "@)))
    } else {
        Some((w[0], w[1], joined(w.skip(2), " "@)))
    }
}

/// The contents of the three texts of a record line.
pub open spec fn fields_view(r: Option<(String, String, String)>) -> Option<
    (Seq<char>, Seq<char>, Seq<char>),
> {
    match r {
        Some(t) => Some((t.0@, t.1@, t.2@)),
        None => None,
    }
}

/// Reads the fields of a record line.
fn read_fields(line: &str) -> (res: Option<(String, String, String)>)
    ensures
        fields_view(res) == line_fields(line@),
{
    let w = split_whitespace(line);
    assert(w@.len() == words(line@).len());
    assert(forall|i: int| 0 <= i < w@.len() ==> texts(w@)[i] == #[trigger] w@[i]@);
    if w.len() < 3 {
        return None;
    }
    if w.len() > 3 && parse_number(w[1].as_str(), u32::MAX as u64).is_some() {
        Some((w[0].clone(), w[2].clone(), join(&w, 3, " ")))
    } else {
        Some((w[0].clone(), w[1].clone(), join(&w, 2, " ")))
    }
}

/// The full name of a record: `@` stands for the zone itself, a name with a dot at its end for
/// itself, and any other for a name below the zone.
pub open spec fn full_name(name: Seq<char>, domain: Seq<char>) -> Seq<char> {
    if name == "@"@ {
        domain
    } else if name.len() > 0 && name.last() == '.' {
        name
    } else {
        name + "."@ + domain
    }
}

/// What a record of the given type and data says, if it is one that a zone is made of.
pub open spec fn record_data(rtype: Seq<char>, data: Seq<char>) -> Option<DataView> {
    if rtype == "A"@ {
        match ip_parse(data) {
            Some(Ip::V4(a)) => Some(DataView::A(a)),
            _ => None,
        }
    } else if rtype == "AAAA"@ {
        match ip_parse(data) {
            Some(Ip::V6(a)) => Some(DataView::Aaaa(a)),
            _ => None,
        }
    } else if rtype == "NS"@ {
        if dns_name_parse(data) is Ok {
            Some(DataView::Ns(data))
        } else {
            None
        }
    } else if rtype == "CNAME"@ {
        if dns_name_parse(data) is Ok {
            Some(DataView::Cname(data))
        } else {
            None
        }
    } else {
        None
    }
}

/// The contents of what a record says.
pub open spec fn data_view(r: Option<RecordData>) -> Option<DataView> {
    match r {
        Some(d) => Some(d@),
        None => None,
    }
}

/// The names of the record types are different texts.
proof fn lemma_type_names()
    ensures
        "A"@ != "AAAA"@,
        "A"@ != "NS"@,
        "A"@ != "CNAME"@,
        "AAAA"@ != "NS"@,
        "AAAA"@ != "CNAME"@,
        "NS"@ != "CNAME"@,
{
    reveal_strlit("A");
    reveal_strlit("AAAA");
    reveal_strlit("NS");
    reveal_strlit("CNAME");
    assert("A"@.len() == 1 && "AAAA"@.len() == 4 && "NS"@.len() == 2 && "CNAME"@.len() == 5);
}

/// Reads what a record says.
fn read_data(rtype: &str, data: &str) -> (res: Option<RecordData>)
    ensures
        data_view(res) == record_data(rtype@, data@),
{
    proof {
        lemma_type_names();
    }
    match record_kind(rtype) {
        Some(RecordKind::A) => match parse_ip(data) {
            Some(Ip::V4(a)) => Some(RecordData::A(a)),
            _ => None,
        },
        Some(RecordKind::Aaaa) => match parse_ip(data) {
            Some(Ip::V6(a)) => Some(RecordData::Aaaa(a)),
            _ => None,
        },
        Some(RecordKind::Ns) => match dns_name(data) {
            Ok(_) => Some(RecordData::Ns(data.to_owned())),
            Err(_) => None,
        },
        Some(RecordKind::Cname) => match dns_name(data) {
            Ok(_) => Some(RecordData::Cname(data.to_owned())),
            Err(_) => None,
        },
        _ => None,
    }
}

/// Whether a group is the one of a name and a kind.
pub open spec fn is_group(g: GroupView, owner: Seq<char>, kind: RecordKind) -> bool {
    g.owner == owner && g.kind == kind
}

/// The text by which a name in a record is compared.
pub open spec fn name_key(name: Seq<char>) -> Seq<char> {
    match dns_name_parse(name) {
        Ok((_, key)) => key,
        Err(_) => name,
    }
}

/// Whether two records say the same. Names are compared as names are.
pub open spec fn same_data(a: DataView, b: DataView) -> bool {
    match (a, b) {
        (DataView::Ns(m), DataView::Ns(n)) => name_key(m) == name_key(n),
        (DataView::Cname(m), DataView::Cname(n)) => name_key(m) == name_key(n),
        _ => a == b,
    }
}

/// Whether one of the records says what `data` says.
pub open spec fn is_said(records: Seq<ZoneRecordView>, data: DataView) -> bool {
    exists|i: int| 0 <= i < records.len() && same_data((#[trigger] records[i]).data, data)
}

/// The records of a name and a kind with one more: a name has one alias, so that a new one replaces
/// the last, and a record that is there already is not added again.
pub open spec fn joined_by(
    records: Seq<ZoneRecordView>,
    name: Seq<char>,
    data: DataView,
) -> Seq<ZoneRecordView> {
    if data.kind() == RecordKind::Cname {
        seq![ZoneRecordView { name, data }]
    } else if is_said(records, data) {
        records
    } else {
        records.push(ZoneRecordView { name, data })
    }
}

/// The groups with one more record: it joins the group of its name and kind, or starts one.
pub open spec fn with_record(
    groups: Seq<GroupView>,
    owner: Seq<char>,
    name: Seq<char>,
    ttl: u32,
    data: DataView,
) -> Seq<GroupView>
    decreases groups.len(),
{
    if groups.len() == 0 {
        seq![GroupView { owner, name, kind: data.kind(), ttl, records: seq![ZoneRecordView { name, data }] }]
    } else if is_group(groups[0], owner, data.kind()) {
        seq![GroupView { records: joined_by(groups[0].records, name, data), ..groups[0] }]
            + groups.drop_first()
    } else {
        seq![groups[0]] + with_record(groups.drop_first(), owner, name, ttl, data)
    }
}

/// A record joins the first group of its name and kind.
proof fn lemma_with_record_found(
    groups: Seq<GroupView>,
    i: int,
    owner: Seq<char>,
    name: Seq<char>,
    ttl: u32,
    data: DataView,
)
    requires
        0 <= i < groups.len(),
        is_group(groups[i], owner, data.kind()),
        forall|k: int| 0 <= k < i ==> !is_group(#[trigger] groups[k], owner, data.kind()),
    ensures
        with_record(groups, owner, name, ttl, data) == groups.update(
            i,
            GroupView { records: joined_by(groups[i].records, name, data), ..groups[i] },
        ),
    decreases groups.len(),
{
    if i > 0 {
        let rest = groups.drop_first();
        assert forall|k: int| 0 <= k < i - 1 implies !is_group(
            #[trigger] rest[k],
            owner,
            data.kind(),
        ) by {
            assert(rest[k] == groups[k + 1]);
        }
        lemma_with_record_found(rest, i - 1, owner, name, ttl, data);
        assert(!is_group(groups[0], owner, data.kind()));
    }
    assert(with_record(groups, owner, name, ttl, data) =~= groups.update(
        i,
        GroupView { records: joined_by(groups[i].records, name, data), ..groups[i] },
    ));
}

/// A record without a group of its name and kind starts one behind the others.
proof fn lemma_with_record_new(
    groups: Seq<GroupView>,
    owner: Seq<char>,
    name: Seq<char>,
    ttl: u32,
    data: DataView,
)
    requires
        forall|k: int| 0 <= k < groups.len() ==> !is_group(#[trigger] groups[k], owner, data.kind()),
    ensures
        with_record(groups, owner, name, ttl, data) == groups.push(
            GroupView { owner, name, kind: data.kind(), ttl, records: seq![ZoneRecordView { name, data }] },
        ),
    decreases groups.len(),
{
    if groups.len() > 0 {
        let rest = groups.drop_first();
        assert forall|k: int| 0 <= k < rest.len() implies !is_group(
            #[trigger] rest[k],
            owner,
            data.kind(),
        ) by {
            assert(rest[k] == groups[k + 1]);
        }
        lemma_with_record_new(rest, owner, name, ttl, data);
        assert(!is_group(groups[0], owner, data.kind()));
    }
    assert(with_record(groups, owner, name, ttl, data) =~= groups.push(
        GroupView { owner, name, kind: data.kind(), ttl, records: seq![ZoneRecordView { name, data }] },
    ));
}

/// The text by which a name in a record is compared.
fn compared_name(name: &str) -> (res: String)
    ensures
        res@ == name_key(name@),
{
    match dns_name(name) {
        Ok((_, key)) => key,
        Err(_) => name.to_owned(),
    }
}

/// Decides [`same_data`] of records that are not of authority.
fn says_the_same(a: &RecordData, b: &RecordData) -> (res: bool)
    requires
        b@.kind() != RecordKind::Soa,
    ensures
        res == same_data(a@, b@),
{
    match (a, b) {
        (RecordData::A(m), RecordData::A(n)) => *m == *n,
        (RecordData::Aaaa(m), RecordData::Aaaa(n)) => *m == *n,
        (RecordData::Ns(m), RecordData::Ns(n)) => compared_name(m.as_str()) == compared_name(
            n.as_str(),
        ),
        (RecordData::Cname(m), RecordData::Cname(n)) => compared_name(m.as_str())
            == compared_name(n.as_str()),
        _ => false,
    }
}

/// Adds a record to those of its name and kind.
fn join_records(records: &mut Vec<ZoneRecord>, name: String, data: RecordData)
    requires
        data@.kind() != RecordKind::Soa,
    ensures
        final(records)@.map_values(|r: ZoneRecord| r@) == joined_by(
            old(records)@.map_values(|r: ZoneRecord| r@),
            name@,
            data@,
        ),
{
    let ghost view = |r: ZoneRecord| r@;
    let ghost before = records@.map_values(view);
    let ghost said = ZoneRecordView { name: name@, data: data@ };
    if data.kind() == RecordKind::Cname {
        records.clear();
        records.push(ZoneRecord { name, data });
        assert(records@.map_values(view) =~= seq![said]);
        return;
    }
    let mut i: usize = 0;
    while i < records.len()
        invariant
            i <= records@.len(),
            *records == *old(records),
            view == (|r: ZoneRecord| r@),
            before == records@.map_values(view),
            data@.kind() != RecordKind::Soa,
            data@.kind() != RecordKind::Cname,
            forall|k: int| 0 <= k < i ==> !same_data((#[trigger] before[k]).data, data@),
        decreases records@.len() - i,
    {
        assert(before[i as int] == records@[i as int]@);
        if says_the_same(&records[i].data, &data) {
            assert(is_said(before, data@));
            return;
        }
        i = i + 1;
    }
    records.push(ZoneRecord { name, data });
    assert(records@.map_values(view) =~= before.push(said));
}

/// Adds a record that is not of authority to the groups.
fn add_record(
    groups: &mut Vec<RecordGroup>,
    owner: String,
    name: String,
    ttl: u32,
    data: RecordData,
)
    requires
        data@.kind() != RecordKind::Soa,
    ensures
        groups_view(final(groups)@) == with_record(
            groups_view(old(groups)@),
            owner@,
            name@,
            ttl,
            data@,
        ),
{
    let kind = data.kind();
    let ghost before = groups_view(groups@);
    let mut i: usize = 0;
    while i < groups.len()
        invariant
            i <= groups@.len(),
            *groups == *old(groups),
            before == groups_view(groups@),
            kind == data@.kind(),
            kind != RecordKind::Soa,
            forall|k: int| 0 <= k < i ==> !is_group(#[trigger] before[k], owner@, kind),
        decreases groups@.len() - i,
    {
        assert(before[i as int] == groups@[i as int]@);
        if groups[i].owner == owner && groups[i].kind == kind {
            let mut g = groups.remove(i);
            let ghost held = g@;
            assert(held == before[i as int]);
            let ghost said = data@;
            let ghost written = name@;
            join_records(&mut g.records, name, data);
            assert(g@.records == joined_by(held.records, written, said));
            groups.insert(i, g);
            proof {
                lemma_with_record_found(before, i as int, owner@, written, ttl, said);
                assert(groups_view(groups@) =~= before.update(
                    i as int,
                    GroupView { records: joined_by(held.records, written, said), ..held },
                ));
            }
            return;
        }
        i = i + 1;
    }
    let ghost said = data@;
    let mut records: Vec<ZoneRecord> = Vec::new();
    records.push(ZoneRecord { name: name.clone(), data });
    let g = RecordGroup { owner, name, kind, ttl, records };
    proof {
        lemma_with_record_new(before, owner@, name@, ttl, said);
        assert(g@.records =~= seq![ZoneRecordView { name: name@, data: said }]);
    }
    groups.push(g);
    assert(groups_view(groups@) =~= before.push(g@));
}

/// The groups with the record of a line, if it is the line of a record that a zone is made of.
pub open spec fn with_line(groups: Seq<GroupView>, line: Seq<char>, domain: Seq<char>) -> Seq<
    GroupView,
> {
    match line_fields(line) {
        None => groups,
        Some((name, rtype, data)) => {
            let full = full_name(name, domain);
            match (dns_name_parse(full), record_data(rtype, data)) {
                (Ok((_, owner)), Some(d)) => with_record(groups, owner, full, STATIC_TTL, d),
                _ => groups,
            }
        },
    }
}

/// The groups of the records of the lines.
pub open spec fn static_groups(lines: Seq<Seq<char>>, domain: Seq<char>) -> Seq<GroupView>
    decreases lines.len(),
{
    if lines.len() == 0 {
        Seq::empty()
    } else {
        with_line(static_groups(lines.drop_last(), domain), lines.last(), domain)
    }
}

/// Adds the record of a line to the groups.
fn add_line(groups: &mut Vec<RecordGroup>, line: &str, domain: &str)
    ensures
        groups_view(final(groups)@) == with_line(groups_view(old(groups)@), line@, domain@),
{
    match read_fields(line) {
        None => {},
        Some((name, rtype, data)) => {
            let full = if same(name.as_str(), "@") {
                domain.to_owned()
            } else if ends_with_char(name.as_str(), '.') {
                name
            } else {
                concat(concat(name.as_str(), ".").as_str(), domain)
            };
            if let Ok((_, owner)) = dns_name(full.as_str()) {
                if let Some(d) = read_data(rtype.as_str(), data.as_str()) {
                    add_record(groups, owner, full, STATIC_TTL, d);
                }
            }
        },
    }
}

/// A configured name, written with a dot at its end, if it is given and is a name; else the
/// zone's own.
pub open spec fn name_or_own(name: Seq<char>, domain: Seq<char>) -> Seq<char> {
    if name.len() > 0 && dns_name_parse(rooted(name)) is Ok {
        rooted(name)
    } else {
        domain
    }
}

/// A configured name or the zone's own.
fn choose_name(name: &str, domain: &str) -> (res: String)
    ensures
        res@ == name_or_own(name@, domain@),
{
    if !name.is_empty() {
        let full = with_root(name);
        if dns_name(full.as_str()).is_ok() {
            return full;
        }
    }
    domain.to_owned()
}

/// The groups with the record of the zone's name server, if one is configured.
pub open spec fn with_name_server(
    groups: Seq<GroupView>,
    nsname: Seq<char>,
    domain: Seq<char>,
    owner: Seq<char>,
) -> Seq<GroupView> {
    if nsname.len() > 0 && dns_name_parse(rooted(nsname)) is Ok {
        with_record(groups, owner, domain, STATIC_TTL, DataView::Ns(rooted(nsname)))
    } else {
        groups
    }
}

/// What the record of the zone's authority says. Copies are refreshed daily, a failed refresh is
/// tried again after two hours, and a copy is void after a thousand hours.
pub open spec fn authority(general: General, domain: Seq<char>, serial: u32) -> DataView {
    DataView::Soa(
        name_or_own(general.nsname@, domain),
        name_or_own(general.nsadmin@, domain),
        serial,
        86400,
        7200,
        3600000,
        1,
    )
}

/// The group of the zone's authority. Its record lives as many seconds as its serial number says.
pub open spec fn authority_group(
    general: General,
    domain: Seq<char>,
    owner: Seq<char>,
    serial: u32,
) -> GroupView {
    GroupView {
        owner,
        name: domain,
        kind: RecordKind::Soa,
        ttl: serial,
        records: seq![
            ZoneRecordView { name: domain, data: authority(general, domain, serial) },
        ],
    }
}

/// All the groups of the zone: those of the configured records, the name server's and the
/// authority's.
pub open spec fn zone_groups(
    general: General,
    domain: Seq<char>,
    owner: Seq<char>,
    serial: u32,
) -> Seq<GroupView> {
    with_name_server(
        static_groups(texts(general.static_records@), domain),
        general.nsname@,
        domain,
        owner,
    ).push(authority_group(general, domain, owner, serial))
}

/// Whether the first of two names comes before the second in the canonical order of names.
pub uninterp spec fn dns_name_precedes(a: Seq<char>, b: Seq<char>) -> bool;

/// Calls the `<` of `hickory_proto::rr::LowerName` on the names that two texts denote; a text that
/// is no name precedes nothing and is preceded by nothing. The result is a function of the texts.
#[verifier::external_body]
fn name_precedes(a: &str, b: &str) -> (res: bool)
    ensures
        res == dns_name_precedes(a@, b@),
{
    match (a.parse::<Name>(), b.parse::<Name>()) {
        (Ok(m), Ok(n)) => LowerName::new(&m) < LowerName::new(&n),
        _ => false,
    }
}

/// The text in which a name is shown.
pub open spec fn name_shown(name: Seq<char>) -> Seq<char> {
    match dns_name_parse(name) {
        Ok((shown, _)) => shown,
        Err(_) => name,
    }
}

/// Shows a name.
fn shown_name(name: &str) -> (res: String)
    ensures
        res@ == name_shown(name@),
{
    match dns_name(name) {
        Ok((shown, _)) => shown,
        Err(_) => name.to_owned(),
    }
}

/// Whether group `i` is an alias whose name has records of another kind too.
pub open spec fn clashes(groups: Seq<GroupView>, i: int) -> bool {
    &&& 0 <= i < groups.len()
    &&& groups[i].kind == RecordKind::Cname
    &&& exists|j: int|
        0 <= j < groups.len() && (#[trigger] groups[j]).owner == groups[i].owner && groups[j].kind
            != RecordKind::Cname
}

/// Of the first `n` groups the alias whose name has records of another kind too; if there are
/// several, the one whose name comes first.
pub open spec fn first_clash(groups: Seq<GroupView>, n: int) -> Option<int>
    decreases n,
{
    if n <= 0 {
        None
    } else {
        match first_clash(groups, n - 1) {
            None => if clashes(groups, n - 1) {
                Some(n - 1)
            } else {
                None
            },
            Some(k) => if clashes(groups, n - 1) && dns_name_precedes(
                groups[n - 1].name,
                groups[k].name,
            ) {
                Some(n - 1)
            } else {
                Some(k)
            },
        }
    }
}

/// Where the group of a name and a kind stands; behind the last, if there is none.
pub open spec fn place_of(groups: Seq<GroupView>, owner: Seq<char>, kind: RecordKind) -> int
    decreases groups.len(),
{
    if groups.len() == 0 || is_group(groups[0], owner, kind) {
        0
    } else {
        1 + place_of(groups.drop_first(), owner, kind)
    }
}

/// Whether there is a group of a name and a kind.
pub open spec fn has_group(groups: Seq<GroupView>, owner: Seq<char>, kind: RecordKind) -> bool {
    place_of(groups, owner, kind) < groups.len()
}

/// The group that has no room beside the alias at `i`, or the alias itself if it has no room beside
/// the others. Of one name, addresses of version 4 and name servers are taken first, then the alias,
/// the authority and the addresses of version 6.
pub open spec fn without_room(groups: Seq<GroupView>, i: int) -> int {
    let owner = groups[i].owner;
    if has_group(groups, owner, RecordKind::A) || has_group(groups, owner, RecordKind::Ns) {
        i
    } else if has_group(groups, owner, RecordKind::Soa) {
        place_of(groups, owner, RecordKind::Soa)
    } else if has_group(groups, owner, RecordKind::Aaaa) {
        place_of(groups, owner, RecordKind::Aaaa)
    } else {
        i
    }
}

/// The text of a kind of records; a zone is made of the first five.
pub open spec fn kind_text(kind: RecordKind) -> Seq<char> {
    match kind {
        RecordKind::A => "A"@,
        RecordKind::Aaaa => "AAAA"@,
        RecordKind::Ns => "NS"@,
        RecordKind::Cname => "CNAME"@,
        RecordKind::Soa => "SOA"@,
        RecordKind::Other => ""@,
    }
}

/// The complaint about a group for which a zone has no room.
pub open spec fn no_room_text(g: GroupView, zone: Seq<char>) -> Seq<char> {
    "Failed to initialize static zone records: Failed to insert "@ + name_shown(g.name) + " "@
        + kind_text(g.kind) + " to zone: "@ + zone
}

/// Decides [`clashes`].
fn is_clash(groups: &Vec<RecordGroup>, i: usize) -> (res: bool)
    requires
        i < groups@.len(),
    ensures
        res == clashes(groups_view(groups@), i as int),
{
    let ghost all = groups_view(groups@);
    assert(all[i as int] == groups@[i as int]@);
    if groups[i].kind != RecordKind::Cname {
        return false;
    }
    let mut j: usize = 0;
    while j < groups.len()
        invariant
            i < groups@.len(),
            j <= groups@.len(),
            all == groups_view(groups@),
            all[i as int] == groups@[i as int]@,
            all[i as int].kind == RecordKind::Cname,
            forall|k: int|
                0 <= k < j ==> !((#[trigger] all[k]).owner == all[i as int].owner && all[k].kind
                    != RecordKind::Cname),
        decreases groups@.len() - j,
    {
        assert(all[j as int] == groups@[j as int]@);
        if groups[j].owner == groups[i].owner && groups[j].kind != RecordKind::Cname {
            return true;
        }
        j = j + 1;
    }
    false
}

/// Finds the alias that [`first_clash`] gives for all groups.
fn find_clash(groups: &Vec<RecordGroup>) -> (res: Option<usize>)
    ensures
        match first_clash(groups_view(groups@), groups@.len() as int) {
            None => res is None,
            Some(k) => res is Some && res->Some_0 == k && 0 <= k < groups@.len(),
        },
{
    let ghost all = groups_view(groups@);
    let mut found: Option<usize> = None;
    let mut n: usize = 0;
    while n < groups.len()
        invariant
            n <= groups@.len(),
            all == groups_view(groups@),
            match first_clash(all, n as int) {
                None => found is None,
                Some(k) => found is Some && found->Some_0 == k && 0 <= k < n,
            },
        decreases groups@.len() - n,
    {
        if is_clash(groups, n) {
            found = match found {
                None => Some(n),
                Some(k) => {
                    assert(all[k as int] == groups@[k as int]@);
                    assert(all[n as int] == groups@[n as int]@);
                    if name_precedes(groups[n].name.as_str(), groups[k].name.as_str()) {
                        Some(n)
                    } else {
                        Some(k)
                    }
                },
            };
        }
        n = n + 1;
    }
    found
}

/// Finds the place that [`place_of`] gives.
fn find_place(groups: &Vec<RecordGroup>, owner: &String, kind: RecordKind) -> (res: usize)
    ensures
        res == place_of(groups_view(groups@), owner@, kind),
        res <= groups@.len(),
{
    let ghost all = groups_view(groups@);
    let n: usize = groups.len();
    let mut at: usize = 0;
    let mut i: usize = n;
    while i > 0
        invariant
            i <= n,
            n == groups@.len(),
            all == groups_view(groups@),
            at == place_of(all.skip(i as int), owner@, kind),
            at <= n - i,
        decreases i,
    {
        assert(all.skip(i - 1).drop_first() == all.skip(i as int));
        assert(all.skip(i - 1)[0] == groups@[i - 1]@);
        i = i - 1;
        if groups[i].owner == *owner && groups[i].kind == kind {
            at = 0;
        } else {
            at = at + 1;
        }
    }
    assert(all.skip(0) == all);
    at
}

/// Finds the group that [`without_room`] gives.
fn find_without_room(groups: &Vec<RecordGroup>, i: usize) -> (res: usize)
    requires
        i < groups@.len(),
    ensures
        res == without_room(groups_view(groups@), i as int),
        res < groups@.len(),
{
    assert(groups_view(groups@)[i as int] == groups@[i as int]@);
    let owner = &groups[i].owner;
    let n: usize = groups.len();
    if find_place(groups, owner, RecordKind::A) < n || find_place(groups, owner, RecordKind::Ns) < n {
        return i;
    }
    let soa: usize = find_place(groups, owner, RecordKind::Soa);
    if soa < n {
        return soa;
    }
    let six: usize = find_place(groups, owner, RecordKind::Aaaa);
    if six < n {
        return six;
    }
    i
}

/// The text of a kind of records.
fn text_of_kind(kind: RecordKind) -> (res: &'static str)
    ensures
        res@ == kind_text(kind),
{
    match kind {
        RecordKind::A => "A",
        RecordKind::Aaaa => "AAAA",
        RecordKind::Ns => "NS",
        RecordKind::Cname => "CNAME",
        RecordKind::Soa => "SOA",
        RecordKind::Other => "",
    }
}

/// Writes the complaint about a group for which a zone has no room.
fn write_no_room(g: &RecordGroup, zone: &str) -> (res: String)
    ensures
        res@ == no_room_text(g@, zone@),
{
    let shown = shown_name(g.name.as_str());
    let m = concat("Failed to initialize static zone records: Failed to insert ", shown.as_str());
    let m = concat(concat(m.as_str(), " ").as_str(), text_of_kind(g.kind));
    concat(concat(m.as_str(), " to zone: ").as_str(), zone)
}

/// The served zone.
#[derive(Debug, Clone)]
pub struct AcmeDnsHandler {
    /// The zone's domain as it is configured, with a dot at its end.
    pub origin: String,
    /// The zone's domain as names are shown.
    pub own_domain: String,
    /// The records that do not change.
    pub zone: Vec<RecordGroup>,
}

/// What setting up the zone of a configuration comes to: a complaint if its domain is not a name,
/// or if an alias is not the only thing that is said of its name; else a zone.
pub open spec fn sets_up(general: General, serial: u32, res: Result<AcmeDnsHandler, String>) -> bool {
    let domain = rooted(general.domain@);
    match dns_name_parse(domain) {
        Err(e) => res matches Err(m) && m@ == "Invalid domain '"@ + domain + "': "@ + e,
        Ok((shown, owner)) => {
            let groups = zone_groups(general, domain, owner, serial);
            match first_clash(groups, groups.len() as int) {
                Some(i) => res matches Err(m) && m@ == no_room_text(
                    groups[without_room(groups, i)],
                    shown,
                ),
                None => res matches Ok(h) && {
                    &&& h.origin@ == domain
                    &&& h.own_domain@ == shown
                    &&& groups_view(h.zone@) == groups
                },
            }
        },
    }
}

impl AcmeDnsHandler {
    /// Sets up the zone with a given serial number.
    pub fn with_serial(general: &General, serial: u32) -> (res: Result<AcmeDnsHandler, String>)
        ensures
            sets_up(*general, serial, res),
    {
        let domain = with_root(general.domain.as_str());
        let (shown, owner) = match dns_name(domain.as_str()) {
            Ok(t) => t,
            Err(e) => {
                let m = concat("Invalid domain '", domain.as_str());
                return Err(concat(concat(m.as_str(), "': ").as_str(), e.as_str()));
            },
        };
        let ghost lines = texts(general.static_records@);
        let mut zone: Vec<RecordGroup> = Vec::new();
        assert(groups_view(zone@) =~= static_groups(lines.take(0), domain@));
        let mut i: usize = 0;
        while i < general.static_records.len()
            invariant
                i <= general.static_records@.len(),
                lines == texts(general.static_records@),
                groups_view(zone@) == static_groups(lines.take(i as int), domain@),
            decreases general.static_records@.len() - i,
        {
            assert(lines.take(i + 1).drop_last() == lines.take(i as int));
            assert(lines[i as int] == general.static_records@[i as int]@);
            add_line(&mut zone, general.static_records[i].as_str(), domain.as_str());
            i = i + 1;
        }
        assert(lines.take(lines.len() as int) == lines);
        if !general.nsname.as_str().is_empty() {
            let ns = with_root(general.nsname.as_str());
            if dns_name(ns.as_str()).is_ok() {
                add_record(&mut zone, owner.clone(), domain.clone(), STATIC_TTL, RecordData::Ns(ns));
            }
        }
        let soa = RecordData::Soa {
            mname: choose_name(general.nsname.as_str(), domain.as_str()),
            rname: choose_name(general.nsadmin.as_str(), domain.as_str()),
            serial,
            refresh: 86400,
            retry: 7200,
            expire: 3600000,
            minimum: 1,
        };
        let ghost before = groups_view(zone@);
        let mut records: Vec<ZoneRecord> = Vec::new();
        records.push(ZoneRecord { name: domain.clone(), data: soa });
        let last = RecordGroup {
            owner,
            name: domain.clone(),
            kind: RecordKind::Soa,
            ttl: serial,
            records,
        };
        assert(last@.records =~= seq![
            ZoneRecordView { name: domain@, data: authority(*general, domain@, serial) },
        ]);
        zone.push(last);
        assert(groups_view(zone@) =~= before.push(last@));
        if let Some(i) = find_clash(&zone) {
            let k: usize = find_without_room(&zone, i);
            assert(groups_view(zone@)[k as int] == zone@[k as int]@);
            return Err(write_no_room(&zone[k], shown.as_str()));
        }
        Ok(AcmeDnsHandler { origin: domain, own_domain: shown, zone })
    }
}

/// The subdomain that a question is about: what stands before the zone's domain, without the
/// label of the challenge. Letters are taken as small ones.
pub open spec fn question(own: Seq<char>, name: Seq<char>) -> Seq<char> {
    let n = lowercase(name);
    let d = lowercase(own);
    let sub = trim_end_char(
        if d.is_suffix_of(n) {
            n.take(n.len() - d.len())
        } else {
            n
        },
        '.',
    );
    without_label(sub)
}

/// A name without the label of the challenge at its start, if it has that.
pub open spec fn without_label(name: Seq<char>) -> Seq<char> {
    if "_acme-challenge."@.is_prefix_of(name) {
        name.skip("_acme-challenge."@.len() as int)
    } else {
        name
    }
}

/// A domain without the label `auth` at its start, if it has that.
pub open spec fn base_of(domain: Seq<char>) -> Seq<char> {
    if "auth."@.is_prefix_of(domain) {
        domain.skip(5)
    } else {
        domain
    }
}

/// The form of a name in which lookups compare it: in small letters and without a dot at its end.
pub open spec fn plain(name: Seq<char>) -> Seq<char> {
    lowercase(trim_end_char(name, '.'))
}

/// Whether the zone answers for a name: it does where the name ends as the domain does, or as the
/// domain without its label `auth`.
pub open spec fn is_served(own: Seq<char>, name: Seq<char>) -> bool {
    ||| plain(own).is_suffix_of(plain(name))
    ||| base_of(plain(own)).is_suffix_of(plain(name))
}

/// How a question is dealt with.
#[derive(Debug, Clone)]
pub enum Lookup {
    /// It is refused.
    Refused,
    /// It is answered from the records that do not change.
    Static,
    /// It is about the challenge records of a subdomain.
    Txt(String),
}

/// The challenge records that were fetched for an answer.
#[derive(Debug, Clone)]
pub struct Fetched {
    /// The tokens.
    pub values: Vec<String>,
    /// Whether to keep them for later answers.
    pub store: bool,
}

/// Challenge tokens that are kept for later answers.
#[derive(Debug, Clone)]
pub struct CachedTxt {
    /// The tokens.
    pub values: Vec<String>,
    /// When they were fetched, in nanoseconds.
    pub at: u64,
}

/// Whether what was fetched at one time may still be answered at another.
pub open spec fn is_recent(at: u64, now: u64) -> bool {
    since(at, now) < TXT_CACHE_TTL * SECOND
}

/// The tokens that are fetched, from the rows that came back, or from `None` if the database
/// failed.
pub open spec fn fetched_tokens(rows: Option<Seq<TxtView>>) -> Seq<Seq<char>> {
    match rows {
        Some(r) => tokens(kept_rows(r)),
        None => Seq::empty(),
    }
}

/// The contents of rows, if there are any.
pub open spec fn rows_of(rows: Option<Vec<TxtRow>>) -> Option<Seq<TxtView>> {
    match rows {
        Some(r) => Some(rows_view(r@)),
        None => None,
    }
}

impl Fetched {
    /// What to keep of the tokens that were fetched at `now`, if there is anything to keep.
    pub fn remember(&self, now: u64) -> (res: Option<CachedTxt>)
        ensures
            match res {
                Some(c) => self.store && texts(c.values@) == texts(self.values@) && c.at == now,
                None => !self.store,
            },
    {
        if self.store {
            Some(CachedTxt { values: copied(&self.values), at: now })
        } else {
            None
        }
    }
}

impl CachedTxt {
    /// The tokens, if they may still be answered at `now`.
    pub fn recall(&self, now: u64) -> (res: Option<Vec<String>>)
        ensures
            match res {
                Some(v) => is_recent(self.at, now) && texts(v@) == texts(self.values@),
                None => !is_recent(self.at, now),
            },
    {
        if now.saturating_sub(self.at) < TXT_CACHE_TTL * SECOND {
            Some(copied(&self.values))
        } else {
            None
        }
    }
}

/// The answer to a question about challenge records.
#[derive(Debug, Clone)]
pub enum TxtAnswer {
    /// A record for each token.
    Records(Vec<String>),
    /// No record, although the name exists.
    Empty,
    /// The answer from the records that do not change.
    Static,
}

impl AcmeDnsHandler {
    /// Sets up the zone. Its serial number is the hour at which that happens.
    pub fn new(general: &General) -> (res: Result<AcmeDnsHandler, String>)
        ensures
            exists|secs: i64|
                secs >= 0 && (#[trigger] utc_text(secs, "%Y%m%d%H"@)) is Some && sets_up(
                    *general,
                    serial_of(utc_text(secs, "%Y%m%d%H"@)->0),
                    res,
                ),
    {
        let secs: i64 = utc_seconds();
        let serial: u32 = serial_at(secs);
        assert(utc_text(secs, "%Y%m%d%H"@) is Some);
        Self::with_serial(general, serial)
    }

    /// The subdomain that a question is about.
    pub fn sanitize_domain_question(&self, name: &str) -> (res: String)
        ensures
            res@ == question(self.own_domain@, name@),
    {
        let n = lower(name);
        let d = lower(self.own_domain.as_str());
        let v = chars_of(n.as_str());
        let before = if ends_with(n.as_str(), d.as_str()) {
            let m: usize = chars_of(d.as_str()).len();
            let t = text_of(&v, 0, v.len() - m);
            assert(t@ == n@.take(n@.len() - d@.len()));
            t
        } else {
            n
        };
        let sub = trim_end_matches(before.as_str(), '.');
        if starts_with(sub.as_str(), "_acme-challenge.") {
            let w = chars_of(sub.as_str());
            let m: usize = chars_of("_acme-challenge.").len();
            let t = text_of(&w, m, w.len());
            assert(t@ == sub@.skip("_acme-challenge."@.len() as int));
            t
        } else {
            sub
        }
    }

    /// Decides how a question for a name is dealt with; `is_txt` says whether it asks for
    /// challenge records.
    pub fn lookup(&self, name: &str, is_txt: bool) -> (res: Lookup)
        ensures
            !is_served(self.own_domain@, name@) ==> res is Refused,
            is_served(self.own_domain@, name@) && !is_txt ==> res is Static,
            is_served(self.own_domain@, name@) && is_txt ==> (res matches Lookup::Txt(sub) && sub@
                == question(self.own_domain@, name@)),
    {
        let n = lower(trim_end_matches(name, '.').as_str());
        let d = lower(trim_end_matches(self.own_domain.as_str(), '.').as_str());
        let base = if starts_with(d.as_str(), "auth.") {
            let v = chars_of(d.as_str());
            proof {
                reveal_strlit("auth.");
            }
            let t = text_of(&v, 5, v.len());
            assert(t@ == d@.skip(5));
            t
        } else {
            d.clone()
        };
        if !ends_with(n.as_str(), d.as_str()) && !ends_with(n.as_str(), base.as_str()) {
            return Lookup::Refused;
        }
        if is_txt {
            Lookup::Txt(self.sanitize_domain_question(name))
        } else {
            Lookup::Static
        }
    }

    /// What was fetched of the challenge records of a subdomain, from the rows that came back, or
    /// from `None` if the database failed: then there are none. No answer is kept where there are
    /// none.
    pub fn get_txt_cached(rows: Option<Vec<TxtRow>>) -> (res: Fetched)
        ensures
            texts(res.values@) == fetched_tokens(rows_of(rows)),
            res.store == (res.values@.len() > 0),
    {
        let values = match rows {
            Some(r) => DbPool::txt_values(r),
            None => Vec::new(),
        };
        assert(texts(values@) =~= fetched_tokens(rows_of(rows)));
        let store = values.len() > 0;
        Fetched { values, store }
    }

    /// The answer to a question about challenge records: the tokens that are not empty, if there
    /// are tokens; else, with `account` saying whether the subdomain is one of an account, no
    /// record, or what the records that do not change give.
    pub fn txt_answer(values: Vec<String>, account: bool) -> (res: TxtAnswer)
        ensures
            values@.len() > 0 ==> (res matches TxtAnswer::Records(v) && texts(v@) == texts(
                values@,
            ).filter(is_full())),
            values@.len() == 0 && account ==> res is Empty,
            values@.len() == 0 && !account ==> res is Static,
    {
        if values.len() > 0 {
            TxtAnswer::Records(full_texts(values))
        } else if account {
            TxtAnswer::Empty
        } else {
            TxtAnswer::Static
        }
    }
}

/// Whether no two groups have the same name and kind, none is empty or says a thing twice, and no
/// name has two aliases.
pub open spec fn is_grouped(groups: Seq<GroupView>) -> bool {
    &&& forall|i: int, j: int|
        0 <= i < j < groups.len() ==> !((#[trigger] groups[i]).owner == (#[trigger] groups[j]).owner
            && groups[i].kind == groups[j].kind)
    &&& forall|i: int| 0 <= i < groups.len() ==> (#[trigger] groups[i]).records.len() > 0
    &&& forall|i: int, k: int|
        0 <= i < groups.len() && 0 <= k < groups[i].records.len() ==> (
        #[trigger] groups[i].records[k]).data.kind() == groups[i].kind
    &&& forall|i: int| 0 <= i < groups.len() ==> says_nothing_twice((#[trigger] groups[i]).records)
    &&& forall|i: int|
        0 <= i < groups.len() && (#[trigger] groups[i]).kind == RecordKind::Cname
            ==> groups[i].records.len() == 1
}

/// Whether no two records say the same.
pub open spec fn says_nothing_twice(records: Seq<ZoneRecordView>) -> bool {
    forall|p: int, q: int|
        0 <= p < q < records.len() ==> !same_data(
            (#[trigger] records[p]).data,
            (#[trigger] records[q]).data,
        )
}

/// Adding a record keeps the groups in order.
proof fn lemma_with_record_is_grouped(
    groups: Seq<GroupView>,
    owner: Seq<char>,
    name: Seq<char>,
    ttl: u32,
    data: DataView,
)
    requires
        is_grouped(groups),
    ensures
        is_grouped(with_record(groups, owner, name, ttl, data)),
        exists|i: int|
            0 <= i < with_record(groups, owner, name, ttl, data).len() && is_group(
                #[trigger] with_record(groups, owner, name, ttl, data)[i],
                owner,
                data.kind(),
            ),
        forall|i: int|
            0 <= i < groups.len() ==> (#[trigger] with_record(
                groups,
                owner,
                name,
                ttl,
                data,
            )[i]).owner == groups[i].owner && with_record(groups, owner, name, ttl, data)[i].kind
                == groups[i].kind,
        groups.len() <= with_record(groups, owner, name, ttl, data).len() <= groups.len() + 1,
{
    let after = with_record(groups, owner, name, ttl, data);
    if exists|i: int| 0 <= i < groups.len() && is_group(#[trigger] groups[i], owner, data.kind()) {
        let i = choose|i: int|
            0 <= i < groups.len() && is_group(#[trigger] groups[i], owner, data.kind());
        lemma_with_record_found(groups, i, owner, name, ttl, data);
        assert(is_group(after[i], owner, data.kind()));
        assert forall|j: int, k: int|
            0 <= j < after.len() && 0 <= k < after[j].records.len() implies (
        #[trigger] after[j].records[k]).data.kind() == after[j].kind by {
            if j != i || k < groups[i].records.len() {
                assert(groups[j].records[k].data.kind() == groups[j].kind);
            }
        }
    } else {
        lemma_with_record_new(groups, owner, name, ttl, data);
        assert(is_group(after[groups.len() as int], owner, data.kind()));
        assert forall|j: int, k: int|
            0 <= j < after.len() && 0 <= k < after[j].records.len() implies (
        #[trigger] after[j].records[k]).data.kind() == after[j].kind by {
            if j < groups.len() {
                assert(groups[j].records[k].data.kind() == groups[j].kind);
            }
        }
    }
}

/// No configured record is one of authority.
proof fn lemma_static_groups(lines: Seq<Seq<char>>, domain: Seq<char>)
    ensures
        is_grouped(static_groups(lines, domain)),
        forall|i: int|
            0 <= i < static_groups(lines, domain).len() ==> (#[trigger] static_groups(
                lines,
                domain,
            )[i]).kind != RecordKind::Soa,
    decreases lines.len(),
{
    if lines.len() > 0 {
        lemma_static_groups(lines.drop_last(), domain);
        let before = static_groups(lines.drop_last(), domain);
        match line_fields(lines.last()) {
            None => {},
            Some((name, rtype, data)) => {
                let full = full_name(name, domain);
                match (dns_name_parse(full), record_data(rtype, data)) {
                    (Ok((_, owner)), Some(d)) => {
                        lemma_with_record_is_grouped(before, owner, full, STATIC_TTL, d);
                        lemma_group_kinds(before, owner, full, STATIC_TTL, d);
                    },
                    _ => {},
                }
            },
        }
    }
}

/// The kinds of the groups after adding a record are those before and the record's.
proof fn lemma_group_kinds(
    groups: Seq<GroupView>,
    owner: Seq<char>,
    name: Seq<char>,
    ttl: u32,
    data: DataView,
)
    ensures
        forall|i: int|
            0 <= i < with_record(groups, owner, name, ttl, data).len() ==> (#[trigger] with_record(
                groups,
                owner,
                name,
                ttl,
                data,
            )[i]).kind == data.kind() || exists|j: int|
                0 <= j < groups.len() && (#[trigger] groups[j]).kind == with_record(
                    groups,
                    owner,
                    name,
                    ttl,
                    data,
                )[i].kind,
    decreases groups.len(),
{
    if groups.len() > 0 {
        let rest = groups.drop_first();
        let after = with_record(groups, owner, name, ttl, data);
        lemma_group_kinds(rest, owner, name, ttl, data);
        assert forall|i: int| 0 <= i < after.len() implies (#[trigger] after[i]).kind == data.kind()
            || exists|j: int| 0 <= j < groups.len() && (#[trigger] groups[j]).kind == after[i].kind by {
            if i == 0 {
                assert(groups[0].kind == after[0].kind);
            } else if is_group(groups[0], owner, data.kind()) {
                assert(after[i] == rest[i - 1]);
                assert(groups[i].kind == after[i].kind);
            } else {
                let tail = with_record(rest, owner, name, ttl, data);
                assert(after[i] == tail[i - 1]);
                if tail[i - 1].kind != data.kind() {
                    let j = choose|j: int|
                        0 <= j < rest.len() && (#[trigger] rest[j]).kind == tail[i - 1].kind;
                    assert(groups[j + 1].kind == after[i].kind);
                }
            }
        }
    }
}

/// Whether `g` is the only group of authority.
pub open spec fn is_only_authority(groups: Seq<GroupView>, g: GroupView) -> bool {
    &&& groups.contains(g)
    &&& g.kind == RecordKind::Soa
    &&& forall|j: int|
        0 <= j < groups.len() && (#[trigger] groups[j]).kind == RecordKind::Soa ==> groups[j] == g
}

/// The groups of a configuration are in order, and exactly one is of authority.
proof fn lemma_zone_groups(general: General, domain: Seq<char>, owner: Seq<char>, serial: u32)
    ensures
        is_grouped(zone_groups(general, domain, owner, serial)),
        is_only_authority(
            zone_groups(general, domain, owner, serial),
            authority_group(general, domain, owner, serial),
        ),
{
    let lines = texts(general.static_records@);
    let first = static_groups(lines, domain);
    let second = with_name_server(first, general.nsname@, domain, owner);
    lemma_static_groups(lines, domain);
    lemma_name_server_is_no_authority(first, general.nsname@, domain, owner);
    let all = zone_groups(general, domain, owner, serial);
    let g = authority_group(general, domain, owner, serial);
    assert(all == second.push(g));
    assert(all[second.len() as int] == g);
}

/// Whether nothing else is said of a name that is an alias.
pub open spec fn aliases_stand_alone(groups: Seq<GroupView>) -> bool {
    forall|i: int, j: int|
        0 <= i < groups.len() && 0 <= j < groups.len() && (#[trigger] groups[i]).kind
            == RecordKind::Cname && (#[trigger] groups[j]).owner == groups[i].owner
            ==> groups[j].kind == RecordKind::Cname
}

/// There is a first clash exactly where there is one.
proof fn lemma_first_clash(groups: Seq<GroupView>, n: int)
    requires
        0 <= n <= groups.len(),
    ensures
        first_clash(groups, n) is Some ==> clashes(groups, first_clash(groups, n)->Some_0),
        first_clash(groups, n) is None ==> forall|i: int| 0 <= i < n ==> !clashes(groups, i),
    decreases n,
{
    if n > 0 {
        lemma_first_clash(groups, n - 1);
    }
}

/// A zone that is set up has one group for each name and kind that it holds, in which nothing is
/// said twice, an alias is the only thing that is said of its name, and there is exactly one record
/// of authority, which belongs to the zone itself and carries its serial number.
pub proof fn law_zone_is_in_order(general: General, serial: u32, h: AcmeDnsHandler)
    requires
        sets_up(general, serial, Ok(h)),
    ensures
        is_grouped(groups_view(h.zone@)),
        aliases_stand_alone(groups_view(h.zone@)),
        is_only_authority(
            groups_view(h.zone@),
            authority_group(
                general,
                rooted(general.domain@),
                name_key(rooted(general.domain@)),
                serial,
            ),
        ),
{
    let domain = rooted(general.domain@);
    let owner = name_key(domain);
    let groups = groups_view(h.zone@);
    lemma_zone_groups(general, domain, owner, serial);
    lemma_first_clash(groups, groups.len() as int);
    assert forall|i: int, j: int|
        0 <= i < groups.len() && 0 <= j < groups.len() && (#[trigger] groups[i]).kind
            == RecordKind::Cname && (#[trigger] groups[j]).owner == groups[i].owner implies groups[j].kind
        == RecordKind::Cname by {
        assert(!clashes(groups, i));
    }
}

/// A zone whose domain is a name is set up if and only if nothing else is said of the names that
/// are aliases.
pub proof fn law_only_an_alias_stands_in_the_way(
    general: General,
    serial: u32,
    res: Result<AcmeDnsHandler, String>,
)
    requires
        sets_up(general, serial, res),
        dns_name_parse(rooted(general.domain@)) is Ok,
    ensures
        res is Ok <==> aliases_stand_alone(
            zone_groups(
                general,
                rooted(general.domain@),
                name_key(rooted(general.domain@)),
                serial,
            ),
        ),
{
    let domain = rooted(general.domain@);
    let groups = zone_groups(general, domain, name_key(domain), serial);
    lemma_first_clash(groups, groups.len() as int);
    if res is Ok {
        law_zone_is_in_order(general, serial, res->Ok_0);
    } else {
        let i = first_clash(groups, groups.len() as int)->Some_0;
        assert(clashes(groups, i));
        let j = choose|j: int|
            0 <= j < groups.len() && (#[trigger] groups[j]).owner == groups[i].owner
                && groups[j].kind != RecordKind::Cname;
        assert(groups[i].kind == RecordKind::Cname && groups[j].kind != RecordKind::Cname);
    }
}

/// The record of the name server keeps the groups in order and is none of authority.
proof fn lemma_name_server_is_no_authority(
    groups: Seq<GroupView>,
    nsname: Seq<char>,
    domain: Seq<char>,
    owner: Seq<char>,
)
    requires
        is_grouped(groups),
        forall|i: int|
            0 <= i < groups.len() ==> (#[trigger] groups[i]).kind != RecordKind::Soa,
    ensures
        is_grouped(with_name_server(groups, nsname, domain, owner)),
        forall|i: int|
            0 <= i < with_name_server(groups, nsname, domain, owner).len() ==> (
            #[trigger] with_name_server(groups, nsname, domain, owner)[i]).kind != RecordKind::Soa,
{
    if nsname.len() > 0 && dns_name_parse(rooted(nsname)) is Ok {
        let d = DataView::Ns(rooted(nsname));
        lemma_with_record_is_grouped(groups, owner, domain, STATIC_TTL, d);
        lemma_group_kinds(groups, owner, domain, STATIC_TTL, d);
    }
}

/// Whether the names that a record mentions are names.
pub open spec fn mentions_names(d: DataView) -> bool {
    match d {
        DataView::A(_) => true,
        DataView::Aaaa(_) => true,
        DataView::Ns(n) => dns_name_parse(n) is Ok,
        DataView::Cname(n) => dns_name_parse(n) is Ok,
        DataView::Soa(m, r, _, _, _, _, _) => dns_name_parse(m) is Ok && dns_name_parse(r) is Ok,
    }
}

/// Whether all that a group holds as a name is one, and its name and those of its records are
/// compared by its owner text.
pub open spec fn is_well_named(g: GroupView) -> bool {
    &&& dns_name_parse(g.name) is Ok
    &&& dns_name_parse(g.name)->Ok_0.1 == g.owner
    &&& forall|k: int|
        0 <= k < g.records.len() ==> {
            &&& dns_name_parse((#[trigger] g.records[k]).name) is Ok
            &&& dns_name_parse(g.records[k].name)->Ok_0.1 == g.owner
            &&& mentions_names(g.records[k].data)
        }
}

/// Adding a well-named record keeps the groups well named.
proof fn lemma_with_record_is_well_named(
    groups: Seq<GroupView>,
    owner: Seq<char>,
    name: Seq<char>,
    ttl: u32,
    data: DataView,
)
    requires
        forall|i: int| 0 <= i < groups.len() ==> is_well_named(#[trigger] groups[i]),
        dns_name_parse(name) is Ok,
        dns_name_parse(name)->Ok_0.1 == owner,
        mentions_names(data),
    ensures
        forall|i: int|
            0 <= i < with_record(groups, owner, name, ttl, data).len() ==> is_well_named(
                #[trigger] with_record(groups, owner, name, ttl, data)[i],
            ),
    decreases groups.len(),
{
    if groups.len() > 0 {
        let rest = groups.drop_first();
        assert forall|i: int| 0 <= i < rest.len() implies is_well_named(#[trigger] rest[i]) by {
            assert(rest[i] == groups[i + 1]);
        }
        lemma_with_record_is_well_named(rest, owner, name, ttl, data);
        let after = with_record(groups, owner, name, ttl, data);
        let tail = with_record(rest, owner, name, ttl, data);
        assert(is_well_named(groups[0]));
        assert forall|i: int| 0 <= i < after.len() implies is_well_named(#[trigger] after[i]) by {
            if i > 0 {
                if is_group(groups[0], owner, data.kind()) {
                    assert(after[i] == rest[i - 1]);
                } else {
                    assert(after[i] == tail[i - 1]);
                }
            }
        }
    }
}

/// The configured records are well named.
proof fn lemma_static_groups_are_well_named(lines: Seq<Seq<char>>, domain: Seq<char>)
    ensures
        forall|i: int|
            0 <= i < static_groups(lines, domain).len() ==> is_well_named(
                #[trigger] static_groups(lines, domain)[i],
            ),
    decreases lines.len(),
{
    if lines.len() > 0 {
        lemma_static_groups_are_well_named(lines.drop_last(), domain);
        let before = static_groups(lines.drop_last(), domain);
        match line_fields(lines.last()) {
            None => {},
            Some((name, rtype, data)) => {
                let full = full_name(name, domain);
                match (dns_name_parse(full), record_data(rtype, data)) {
                    (Ok((_, owner)), Some(d)) => {
                        lemma_with_record_is_well_named(before, owner, full, STATIC_TTL, d);
                    },
                    _ => {},
                }
            },
        }
    }
}

/// Everything that stands for a name in a zone is one, so that the zone can be served.
pub proof fn law_zone_is_well_named(
    general: General,
    domain: Seq<char>,
    owner: Seq<char>,
    serial: u32,
)
    requires
        dns_name_parse(domain) is Ok,
        dns_name_parse(domain)->Ok_0.1 == owner,
    ensures
        forall|i: int|
            0 <= i < zone_groups(general, domain, owner, serial).len() ==> is_well_named(
                #[trigger] zone_groups(general, domain, owner, serial)[i],
            ),
{
    let lines = texts(general.static_records@);
    let first = static_groups(lines, domain);
    let second = with_name_server(first, general.nsname@, domain, owner);
    lemma_static_groups_are_well_named(lines, domain);
    if general.nsname@.len() > 0 && dns_name_parse(rooted(general.nsname@)) is Ok {
        lemma_with_record_is_well_named(
            first,
            owner,
            domain,
            STATIC_TTL,
            DataView::Ns(rooted(general.nsname@)),
        );
    }
    let all = zone_groups(general, domain, owner, serial);
    assert forall|i: int| 0 <= i < all.len() implies is_well_named(#[trigger] all[i]) by {
        if i < second.len() {
            assert(all[i] == second[i]);
        }
    }
}

/// The zone answers for exactly the names that end as its domain does without the label `auth`.
pub proof fn law_served_names(own: Seq<char>, name: Seq<char>)
    ensures
        is_served(own, name) <==> base_of(plain(own)).is_suffix_of(plain(name)),
{
    let d = plain(own);
    let n = plain(name);
    if d.is_suffix_of(n) && "auth."@.is_prefix_of(d) {
        reveal_strlit("auth.");
        assert(n.skip(n.len() - (d.len() - 5)) =~= n.skip(n.len() - d.len()).skip(5));
        assert(n.subrange(n.len() - (d.len() - 5), n.len() as int) =~= d.skip(5));
    }
}

/// Small letters of two ASCII texts one after the other.
proof fn lemma_lowercase_of_sum(a: Seq<char>, b: Seq<char>)
    requires
        is_ascii_text(a),
        is_ascii_text(b),
    ensures
        is_ascii_text(a + b),
        lowercase(a + b) == lowercase(a) + lowercase(b),
{
    assert forall|i: int| 0 <= i < (a + b).len() implies (#[trigger] (a + b)[i] as u32) < 128 by {
        if i < a.len() {
            assert((a[i] as u32) < 128);
        } else {
            assert((b[i - a.len()] as u32) < 128);
        }
    }
    assert(lowercase(a + b) =~= lowercase(a) + lowercase(b));
}

/// Whether a name stands for a subdomain below the zone's domain, or for the challenge of that
/// name, in letters of any size.
pub open spec fn is_below(own: Seq<char>, sub: Seq<char>, name: Seq<char>) -> bool {
    ||| lowercase(name) == sub + "."@ + lowercase(own)
    ||| lowercase(name) == "_acme-challenge."@ + sub + "."@ + lowercase(own)
}

/// A question for a name below the zone's domain is about what stands before the domain, and so is
/// one for the challenge of that name. `sub` is in small letters, and the question is in letters of
/// any size: what it is written with is compared in small letters. This is of all names whose small
/// letters are those of their parts.
pub proof fn law_question_below_the_domain(own: Seq<char>, name: Seq<char>, sub: Seq<char>)
    requires
        is_below(own, sub, name),
        sub.len() > 0,
        sub.last() != '.',
        !"_acme-challenge."@.is_prefix_of(sub),
    ensures
        question(own, name) == sub,
{
    reveal_strlit(".");
    reveal_strlit("_acme-challenge.");
    let dot = "."@;
    let label = "_acme-challenge."@;
    let d = lowercase(own);
    let n = lowercase(name);
    assert(dot.len() == 1 && dot[0] == '.');
    if n == sub + dot + d {
        assert(n.subrange(n.len() - d.len(), n.len() as int) =~= d);
        assert(n.take(n.len() - d.len()) =~= sub + dot);
        assert((sub + dot).drop_last() =~= sub);
        assert(trim_end_char(sub + dot, '.') == trim_end_char(sub, '.'));
    } else {
        assert(n.subrange(n.len() - d.len(), n.len() as int) =~= d);
        assert(n.take(n.len() - d.len()) =~= label + sub + dot);
        assert((label + sub + dot).drop_last() =~= label + sub);
        assert(trim_end_char(label + sub + dot, '.') == trim_end_char(label + sub, '.'));
        assert((label + sub).last() == sub.last());
        assert(trim_end_char(label + sub, '.') == label + sub);
        assert((label + sub).take(label.len() as int) =~= label);
        assert((label + sub).skip(label.len() as int) =~= sub);
    }
}

/// A question for a name that does not end as the zone's domain does is about the whole name, in
/// small letters, without dots at its end and without the label of the challenge.
pub proof fn law_question_outside_the_domain(own: Seq<char>, name: Seq<char>)
    requires
        !lowercase(own).is_suffix_of(lowercase(name)),
    ensures
        question(own, name) == without_label(trim_end_char(lowercase(name), '.')),
{
}

/// A question for a subdomain and one for its challenge are about the same subdomain, in letters of
/// whatever size the question is written. This is of names in ASCII.
pub proof fn law_challenge_is_about_its_subdomain(own: Seq<char>, sub: Seq<char>, name: Seq<char>)
    requires
        is_ascii_text(own),
        is_ascii_text(sub),
        sub.len() > 0,
        sub.last() != '.',
        !"_acme-challenge."@.is_prefix_of(lowercase(sub)),
        lowercase(name) == lowercase(sub + "."@ + own) || lowercase(name) == lowercase(
            "_acme-challenge."@ + sub + "."@ + own,
        ),
    ensures
        question(own, name) == lowercase(sub),
{
    reveal_strlit(".");
    reveal_strlit("_acme-challenge.");
    let dot = "."@;
    let label = "_acme-challenge."@;
    assert(lowercase(dot) =~= dot);
    assert(is_ascii_text(label));
    assert(lowercase(label) =~= label);
    lemma_lowercase_of_sum(sub, dot);
    lemma_lowercase_of_sum(sub + dot, own);
    lemma_lowercase_of_sum(label, sub);
    lemma_lowercase_of_sum(label + sub, dot);
    lemma_lowercase_of_sum(label + sub + dot, own);
    assert(lowercase(sub).last() == ascii_lower(sub.last()));
    law_question_below_the_domain(own, name, lowercase(sub));
}

/// A subdomain of an account is in small letters and holds no dot and no label.
proof fn lemma_uuid_is_plain(subdomain: Seq<char>)
    requires
        is_uuid_text(subdomain),
    ensures
        is_ascii_text(subdomain),
        lowercase(subdomain) == subdomain,
        subdomain.last() != '.',
        !"_acme-challenge."@.is_prefix_of(subdomain),
{
    assert forall|i: int| 0 <= i < subdomain.len() implies (#[trigger] subdomain[i] as u32) < 128
        && ascii_lower(subdomain[i]) == subdomain[i] by {}
    assert(lowercase(subdomain) =~= subdomain);
    assert(subdomain[35] != '.');
    reveal_strlit("_acme-challenge.");
    assert("_acme-challenge."@[0] == '_');
    assert(subdomain[0] != '_');
    if "_acme-challenge."@.is_prefix_of(subdomain) {
        assert(subdomain.subrange(0, 16)[0] == '_');
    }
}

/// The domain that an account is told to point its challenges to leads back to the account's
/// subdomain, and so does the challenge of that domain.
pub proof fn law_account_domain_leads_back(own: Seq<char>, subdomain: Seq<char>, name: Seq<char>)
    requires
        is_uuid_text(subdomain),
        is_below(own, subdomain, name),
    ensures
        question(own, name) == subdomain,
{
    lemma_uuid_is_plain(subdomain);
    law_question_below_the_domain(own, name, subdomain);
}

/// The domain of an account, written out, is below the zone's domain, and so is its challenge. This
/// is of domains in ASCII: elsewhere the small form of a letter can depend on what stands before it.
pub proof fn law_account_domain_is_below(own: Seq<char>, subdomain: Seq<char>)
    requires
        is_ascii_text(own),
        is_uuid_text(subdomain),
    ensures
        is_below(own, subdomain, subdomain + "."@ + own),
        is_below(own, subdomain, "_acme-challenge."@ + subdomain + "."@ + own),
{
    reveal_strlit(".");
    reveal_strlit("_acme-challenge.");
    let dot = "."@;
    let label = "_acme-challenge."@;
    lemma_uuid_is_plain(subdomain);
    assert(lowercase(dot) =~= dot);
    assert(is_ascii_text(label));
    assert(lowercase(label) =~= label);
    lemma_lowercase_of_sum(subdomain, dot);
    lemma_lowercase_of_sum(subdomain + dot, own);
    lemma_lowercase_of_sum(label, subdomain);
    lemma_lowercase_of_sum(label + subdomain, dot);
    lemma_lowercase_of_sum(label + subdomain + dot, own);
}

/// A challenge that was written last is the first in the answer to a question for it: the question
/// is about the account's subdomain, and the newest of its records comes first, whether or not the
/// surplus ones are deleted already.
pub proof fn law_written_challenge_is_answered(
    own: Seq<char>,
    subdomain: Seq<char>,
    name: Seq<char>,
    before: Seq<TxtView>,
    row: TxtView,
    after: Seq<TxtView>,
)
    requires
        is_uuid_text(subdomain),
        is_below(own, subdomain, name),
        is_acme_token(row.value),
        numbered(before.push(row)),
        forall|i: int| 0 <= i < before.len() ==> not_older(row, #[trigger] before[i]),
        after.to_multiset() == before.push(row).to_multiset() || after.to_multiset() == pruned(
            before.push(row),
        ),
    ensures
        question(own, name) == subdomain,
        tokens(kept_rows(after)).len() > 0,
        tokens(kept_rows(after)).filter(is_full()).len() > 0,
        tokens(kept_rows(after)).filter(is_full())[0] == row.value,
{
    law_account_domain_leads_back(own, subdomain, name);
    law_pruning_does_not_change_what_is_read(before.push(row), after);
    law_read_after_update(before, row);
    let read = tokens(kept_rows(after));
    let f = is_full();
    assert(read[0] == row.value);
    assert(read =~= seq![row.value] + read.drop_first());
    Seq::filter_distributes_over_add(seq![row.value], read.drop_first(), f);
    reveal(Seq::filter);
    assert(seq![row.value].drop_last() =~= Seq::<Seq<char>>::empty());
    assert(seq![row.value].filter(f) =~= seq![row.value]);
}

/// A question for the tokens of a subdomain, with the rows that the database has at that moment.
pub struct Asked {
    /// The subdomain.
    pub subdomain: Seq<char>,
    /// The moment.
    pub now: u64,
    /// The rows, or none if the database fails.
    pub rows: Option<Seq<TxtView>>,
}

/// The tokens that are kept of each subdomain, and when they were fetched.
pub type Kept = Map<Seq<char>, (Seq<Seq<char>>, u64)>;

/// Whether a question is answered from what is kept: see [`CachedTxt::recall`].
pub open spec fn is_hit(kept: Kept, q: Asked) -> bool {
    kept.contains_key(q.subdomain) && is_recent(kept[q.subdomain].1, q.now)
}

/// The tokens with which a question is answered: those that are kept, or else those that are
/// fetched.
pub open spec fn answered(kept: Kept, q: Asked) -> Seq<Seq<char>> {
    if is_hit(kept, q) {
        kept[q.subdomain].0
    } else {
        fetched_tokens(q.rows)
    }
}

/// What is kept after a question: what was fetched, if that is anything. See
/// [`Fetched::remember`].
pub open spec fn kept_after(kept: Kept, q: Asked) -> Kept {
    if is_hit(kept, q) || fetched_tokens(q.rows).len() == 0 {
        kept
    } else {
        kept.insert(q.subdomain, (fetched_tokens(q.rows), q.now))
    }
}

/// What is kept after questions.
pub open spec fn kept_after_all(asked: Seq<Asked>) -> Kept
    decreases asked.len(),
{
    if asked.len() == 0 {
        Map::empty()
    } else {
        kept_after(kept_after_all(asked.drop_last()), asked.last())
    }
}

/// What is kept of a subdomain is what was fetched for it at that moment, and is not empty.
proof fn lemma_kept_was_fetched(asked: Seq<Asked>, subdomain: Seq<char>)
    requires
        kept_after_all(asked).contains_key(subdomain),
    ensures
        kept_after_all(asked)[subdomain].0.len() > 0,
        exists|i: int|
            0 <= i < asked.len() && (#[trigger] asked[i]).subdomain == subdomain && asked[i].now
                == kept_after_all(asked)[subdomain].1 && fetched_tokens(asked[i].rows)
                == kept_after_all(asked)[subdomain].0,
    decreases asked.len(),
{
    let front = asked.drop_last();
    let last = asked.last();
    let before = kept_after_all(front);
    assert(asked[asked.len() - 1] == last);
    if is_hit(before, last) || fetched_tokens(last.rows).len() == 0 || last.subdomain != subdomain {
        lemma_kept_was_fetched(front, subdomain);
        let i = choose|i: int|
            0 <= i < front.len() && (#[trigger] front[i]).subdomain == subdomain && front[i].now
                == before[subdomain].1 && fetched_tokens(front[i].rows) == before[subdomain].0;
        assert(asked[i] == front[i]);
    }
}

/// An answer that does not come from the database at that moment was fetched for the same subdomain
/// less than two seconds before, and is not empty.
pub proof fn law_kept_answers_are_recent(asked: Seq<Asked>, q: Asked)
    ensures
        answered(kept_after_all(asked), q) == fetched_tokens(q.rows) || exists|i: int|
            0 <= i < asked.len() && (#[trigger] asked[i]).subdomain == q.subdomain && since(
                asked[i].now,
                q.now,
            ) < 2 * SECOND && fetched_tokens(asked[i].rows).len() > 0 && answered(
                kept_after_all(asked),
                q,
            ) == fetched_tokens(asked[i].rows),
{
    if is_hit(kept_after_all(asked), q) {
        lemma_kept_was_fetched(asked, q.subdomain);
    }
}

/// Tokens that were fetched are answered again for two seconds, whatever the database then has, and
/// from then on it is asked. That there are none is not kept, so that the next question asks the
/// database. Questions for other subdomains in between change nothing.
pub proof fn law_fetched_answers_are_kept(kept: Kept, first: Asked, other: Asked, second: Asked)
    requires
        !is_hit(kept, first),
        second.subdomain == first.subdomain,
        other.subdomain != first.subdomain,
        first.now <= second.now,
    ensures
        answered(kept, first) == fetched_tokens(first.rows),
        ({
            let then = kept_after(kept_after(kept, first), other);
            let vs = fetched_tokens(first.rows);
            &&& vs.len() > 0 && second.now - first.now < 2 * SECOND ==> answered(then, second) == vs
            &&& vs.len() > 0 && second.now - first.now >= 2 * SECOND ==> answered(then, second)
                == fetched_tokens(second.rows)
            &&& vs.len() == 0 ==> answered(then, second) == fetched_tokens(second.rows)
        }),
{
}

/// A name that ends as the zone's domain does is answered for, whatever stands before that. Names
/// are compared in small letters and without dots at their end.
pub proof fn law_names_below_the_domain_are_served(
    own: Seq<char>,
    name: Seq<char>,
    front: Seq<char>,
)
    requires
        plain(name) == front + plain(own),
    ensures
        is_served(own, name),
{
    let n = plain(name);
    let d = plain(own);
    assert(n.subrange(n.len() - d.len(), n.len() as int) =~= d);
}

/// A name that is written out below the zone's domain is answered for. This is of names in ASCII.
pub proof fn law_written_names_below_the_domain_are_served(own: Seq<char>, sub: Seq<char>)
    requires
        is_ascii_text(own),
        is_ascii_text(sub),
    ensures
        is_served(own, sub + own),
{
    lemma_trim_of_sum(sub, own);
    let t = trim_end_char(own, '.');
    lemma_trim_is_prefix(own);
    assert(is_ascii_text(t)) by {
        assert forall|i: int| 0 <= i < t.len() implies (#[trigger] t[i] as u32) < 128 by {
            assert(t[i] == own[i]);
        }
    }
    if t.len() > 0 {
        lemma_lowercase_of_sum(sub, t);
        law_names_below_the_domain_are_served(own, sub + own, lowercase(sub));
    } else {
        assert(lowercase(t) =~= Seq::empty());
        let n = plain(sub + own);
        assert(n =~= n + plain(own));
        law_names_below_the_domain_are_served(own, sub + own, n);
    }
}

/// Removing dots at the end leaves a text's start.
proof fn lemma_trim_is_prefix(s: Seq<char>)
    ensures
        trim_end_char(s, '.').len() <= s.len(),
        forall|i: int|
            0 <= i < trim_end_char(s, '.').len() ==> #[trigger] trim_end_char(s, '.')[i] == s[i],
    decreases s.len(),
{
    if s.len() > 0 && s.last() == '.' {
        lemma_trim_is_prefix(s.drop_last());
    }
}

/// Dots at the end are those of the last part, unless it is made of nothing else.
proof fn lemma_trim_of_sum(a: Seq<char>, b: Seq<char>)
    ensures
        trim_end_char(b, '.').len() > 0 ==> trim_end_char(a + b, '.') == a + trim_end_char(b, '.'),
    decreases b.len(),
{
    if b.len() > 0 && b.last() == '.' {
        assert((a + b).drop_last() =~= a + b.drop_last());
        lemma_trim_of_sum(a, b.drop_last());
    }
}

/// A zone whose domain starts with the label `auth` answers for the names that end as its domain
/// does without that label, and a zone of any other domain for those that end as the whole domain
/// does; every other name is refused. Names are compared in small letters and without dots at their
/// end: `d` and `n` are the domain and the name in that form.
pub proof fn law_names_outside_are_refused(
    h: AcmeDnsHandler,
    name: &str,
    is_txt: bool,
    res: Lookup,
    d: Seq<char>,
    n: Seq<char>,
    rest: Seq<char>,
)
    requires
        call_ensures(AcmeDnsHandler::lookup, (&h, name, is_txt), res),
        reads_as(h.own_domain@, d) || d == lowercase(trim_end_char(h.own_domain@, '.')),
        reads_as(name@, n) || n == lowercase(trim_end_char(name@, '.')),
    ensures
        d == "auth."@ + rest ==> (res is Refused <==> !ends_as(n, rest)),
        !(exists|r: Seq<char>| #[trigger] ("auth."@ + r) == d) ==> (res
            is Refused <==> !ends_as(n, d)),
        !(res is Refused) ==> (res is Txt <==> is_txt),
        !(res is Refused) ==> (res is Static <==> !is_txt),
{
    if reads_as(h.own_domain@, d) {
        lemma_reads_as(h.own_domain@, d);
    }
    if reads_as(name@, n) {
        lemma_reads_as(name@, n);
    }
    reveal_strlit("auth.");
    let auth = "auth."@;
    lemma_ends_as(n, rest);
    lemma_ends_as(n, d);
    if d == auth + rest {
        assert(d.subrange(0, 5) =~= auth);
        assert(d.skip(5) =~= rest);
        if ends_as(n, d) {
            let front = choose|front: Seq<char>| #[trigger] (front + d) == n;
            assert((front + auth) + rest =~= n);
        }
    } else if auth.is_prefix_of(d) {
        assert(auth + d.skip(5) =~= d);
    }
    law_served_names(h.own_domain@, name@);
}

/// Whether a text is something and then the end.
pub open spec fn ends_as(s: Seq<char>, end: Seq<char>) -> bool {
    exists|front: Seq<char>| #[trigger] (front + end) == s
}

/// A text ends with a suffix of it.
proof fn lemma_ends_as(s: Seq<char>, end: Seq<char>)
    ensures
        ends_as(s, end) <==> end.is_suffix_of(s),
{
    if end.is_suffix_of(s) {
        let front = s.take(s.len() - end.len());
        assert(front + end =~= s);
    }
    if ends_as(s, end) {
        let front = choose|front: Seq<char>| #[trigger] (front + end) == s;
        assert(s.subrange(s.len() - end.len(), s.len() as int) =~= end);
    }
}

/// A question is about what stands before the zone's domain, or about the whole name if it does not
/// end as the domain does, without dots at the end and without one label of the challenge at the
/// start. Both are taken in small letters; `body` is what is left before the label is looked for.
pub proof fn law_question_is_what_stands_before_the_domain(
    h: AcmeDnsHandler,
    name: &str,
    res: String,
    front: Seq<char>,
    body: Seq<char>,
    rest: Seq<char>,
)
    requires
        call_ensures(AcmeDnsHandler::sanitize_domain_question, (&h, name), res),
        lowercase(name@) == front + lowercase(h.own_domain@) || (!ends_as(
            lowercase(name@),
            lowercase(h.own_domain@),
        ) && front == lowercase(name@)),
        body.is_prefix_of(front),
        body.len() == 0 || body.last() != '.',
        forall|i: int| body.len() <= i < front.len() ==> #[trigger] front[i] == '.',
    ensures
        body == "_acme-challenge."@ + rest ==> res@ == rest,
        !(exists|r: Seq<char>| #[trigger] ("_acme-challenge."@ + r) == body) ==> res@ == body,
{
    let n = lowercase(name@);
    let d = lowercase(h.own_domain@);
    let label = "_acme-challenge."@;
    lemma_ends_as(n, d);
    lemma_trimmed_end_is(front, '.', body);
    if n == front + d {
        assert(ends_as(n, d));
        assert(n.take(n.len() - d.len()) =~= front);
    }
    if body == label + rest {
        assert(body.subrange(0, label.len() as int) =~= label);
        assert(body.skip(label.len() as int) =~= rest);
    } else if label.is_prefix_of(body) {
        assert(label + body.skip(label.len() as int) =~= body);
    }
}

/// A question for challenge records that is not refused is about the subdomain that
/// [`AcmeDnsHandler::sanitize_domain_question`] gives.
pub proof fn law_challenges_are_looked_up_by_subdomain(
    h: AcmeDnsHandler,
    name: &str,
    res: Lookup,
    sub: String,
)
    requires
        call_ensures(AcmeDnsHandler::lookup, (&h, name, true), res),
        call_ensures(AcmeDnsHandler::sanitize_domain_question, (&h, name), sub),
    ensures
        !(res is Refused) ==> res is Txt && res->Txt_0@ == sub@,
{
}

/// The tokens of a subdomain: from what was fetched each token that is not empty is a record, in
/// the same order; where nothing was fetched, an account's subdomain has no record, and any other is
/// answered from the zone.
pub proof fn law_tokens_are_answered(values: Vec<String>, account: bool, res: TxtAnswer)
    requires
        call_ensures(AcmeDnsHandler::txt_answer, (values, account), res),
    ensures
        res is Records <==> values@.len() > 0,
        res is Empty <==> values@.len() == 0 && account,
        res is Static <==> values@.len() == 0 && !account,
        res matches TxtAnswer::Records(v) ==> {
            &&& forall|i: int|
                0 <= i < v@.len() ==> (#[trigger] v@[i])@.len() > 0 && texts(values@).contains(
                    v@[i]@,
                )
            &&& forall|i: int|
                0 <= i < values@.len() && (#[trigger] values@[i])@.len() > 0 ==> texts(v@).contains(
                    values@[i]@,
                )
            &&& (forall|i: int| 0 <= i < values@.len() ==> (#[trigger] values@[i])@.len() > 0)
                ==> texts(v@) == texts(values@)
        },
{
    if let TxtAnswer::Records(v) = res {
        let all = texts(values@);
        let f = is_full();
        assert forall|i: int| 0 <= i < v@.len() implies (#[trigger] v@[i])@.len() > 0 && all.contains(
            v@[i]@,
        ) by {
            assert(texts(v@)[i] == v@[i]@);
            lemma_filtered(all, f, i);
        }
        assert forall|i: int|
            0 <= i < values@.len() && (#[trigger] values@[i])@.len() > 0 implies texts(v@).contains(
            values@[i]@,
        ) by {
            assert(all[i] == values@[i]@);
            lemma_filter_keeps(all, f, i);
        }
        if forall|i: int| 0 <= i < values@.len() ==> (#[trigger] values@[i])@.len() > 0 {
            assert forall|i: int| 0 <= i < all.len() implies f(#[trigger] all[i]) by {
                assert(all[i] == values@[i]@);
            }
            lemma_filter_all(all, f);
        }
    }
}

/// What a filter lets through was there and passes it.
proof fn lemma_filtered(s: Seq<Seq<char>>, f: spec_fn(Seq<char>) -> bool, i: int)
    requires
        0 <= i < s.filter(f).len(),
    ensures
        f(s.filter(f)[i]),
        s.contains(s.filter(f)[i]),
    decreases s.len(),
{
    reveal(Seq::filter);
    let r = s.drop_last();
    if i < r.filter(f).len() {
        lemma_filtered(r, f, i);
        let k = r.index_of(r.filter(f)[i]);
        assert(s[k] == r[k]);
    } else {
        assert(s.filter(f)[i] == s[s.len() - 1]);
    }
}

/// What passes a filter is let through.
proof fn lemma_filter_keeps(s: Seq<Seq<char>>, f: spec_fn(Seq<char>) -> bool, i: int)
    requires
        0 <= i < s.len(),
        f(s[i]),
    ensures
        s.filter(f).contains(s[i]),
    decreases s.len(),
{
    reveal(Seq::filter);
    let r = s.drop_last();
    if i < r.len() {
        lemma_filter_keeps(r, f, i);
        let k = r.filter(f).index_of(s[i]);
        assert(s.filter(f)[k] == s[i]);
    } else {
        assert(s.filter(f)[r.filter(f).len() as int] == s[i]);
    }
}

/// A filter that all pass changes nothing.
proof fn lemma_filter_all(s: Seq<Seq<char>>, f: spec_fn(Seq<char>) -> bool)
    requires
        forall|i: int| 0 <= i < s.len() ==> f(#[trigger] s[i]),
    ensures
        s.filter(f) == s,
    decreases s.len(),
{
    reveal(Seq::filter);
    if s.len() > 0 {
        let r = s.drop_last();
        assert forall|i: int| 0 <= i < r.len() implies f(#[trigger] r[i]) by {
            assert(r[i] == s[i]);
        }
        lemma_filter_all(r, f);
        assert(f(s[s.len() - 1]));
        assert(s.filter(f) =~= s);
    } else {
        assert(s.filter(f) =~= s);
    }
}

/// Tokens that were fetched are kept if there are any, and are answered again, the same and in the
/// same order, at every moment less than two seconds later, and at no other later moment.
pub proof fn law_tokens_are_kept_for_two_seconds(
    rows: Option<Vec<TxtRow>>,
    fetched: Fetched,
    at: u64,
    kept: Option<CachedTxt>,
    now: u64,
    recalled: Option<Vec<String>>,
)
    requires
        call_ensures(AcmeDnsHandler::get_txt_cached, (rows,), fetched),
        call_ensures(Fetched::remember, (&fetched, at), kept),
        kept matches Some(c) ==> call_ensures(CachedTxt::recall, (&c, now), recalled),
        at <= now,
    ensures
        kept is Some <==> fetched.values@.len() > 0,
        rows is None ==> fetched.values@.len() == 0,
        kept is Some ==> (recalled is Some <==> now - at < 2_000_000_000),
        kept is Some && recalled is Some ==> texts(recalled->Some_0@) == texts(fetched.values@),
{
    assert(texts(fetched.values@).len() == fetched.values@.len());
}

/// A name is written with one more dot if it does not end with one.
pub proof fn law_names_end_with_a_dot(s: &str, res: String)
    requires
        call_ensures(with_root, (s,), res),
    ensures
        res@.last() == '.',
        s@.len() > 0 && s@.last() == '.' ==> res@ == s@,
        s@.len() == 0 || s@.last() != '.' ==> res@ == s@.push('.'),
{
    reveal_strlit(".");
    assert(s@ + "."@ =~= s@.push('.'));
}

/// The fields of a record line, from its words: three words are the name, the type and the data; of
/// more, the second is passed over if it is a number of at most 32 bits, and the words behind the
/// type are the data, with single spaces between. Fewer words are no record.
pub proof fn law_record_lines(line: Seq<char>, a: Seq<char>, b: Seq<char>, c: Seq<char>, more: Seq<Seq<char>>)
    ensures
        words(line).len() < 3 ==> line_fields(line) is None,
        words(line) == seq![a, b, c] ==> line_fields(line) == Some((a, b, c)),
        words(line) == seq![a, b, c] + more && more.len() > 0 && (number_of(b) is None || number_of(
            b,
        )->Some_0 > 4294967295) ==> line_fields(line) == Some((a, b, joined(seq![c] + more, " "@))),
        words(line) == seq![a, b, c] + more && more.len() > 0 && number_of(b) is Some && number_of(
            b,
        )->Some_0 <= 4294967295 ==> line_fields(line) == Some((a, c, joined(more, " "@))),
{
    let w = words(line);
    if w == seq![a, b, c] {
        assert(w.skip(2) =~= seq![c]);
        assert(joined(seq![c], " "@) == c);
    }
    if w == seq![a, b, c] + more {
        assert(w.skip(2) =~= seq![c] + more);
        assert(w.skip(3) =~= more);
    }
}

/// Whether `full` is the name of a record whose line has `name`: the zone's domain for `@`, the name
/// itself if it ends with a dot, and otherwise the name, a dot and the domain, whatever the name
/// holds.
pub open spec fn is_name_in_zone(full: Seq<char>, name: Seq<char>, domain: Seq<char>) -> bool {
    if name == "@"@ {
        full == domain
    } else if name.len() > 0 && name[name.len() - 1] == '.' {
        full == name
    } else {
        &&& full.len() == name.len() + 1 + domain.len()
        &&& name.is_prefix_of(full)
        &&& full[name.len() as int] == '.'
        &&& domain.is_suffix_of(full)
    }
}

/// Whether a record says what a line of the given type and data says: an address of the version
/// that belongs to the type, or a name.
pub open spec fn is_data_of(d: DataView, rtype: Seq<char>, data: Seq<char>) -> bool {
    match d {
        DataView::A(a) => rtype == "A"@ && ip_parse(data) == Some(Ip::V4(a)),
        DataView::Aaaa(a) => rtype == "AAAA"@ && ip_parse(data) == Some(Ip::V6(a)),
        DataView::Ns(n) => rtype == "NS"@ && n == data && dns_name_parse(data) is Ok,
        DataView::Cname(n) => rtype == "CNAME"@ && n == data && dns_name_parse(data) is Ok,
        DataView::Soa(..) => false,
    }
}

/// Whether a record comes from a line.
pub open spec fn is_of_line(r: ZoneRecordView, line: Seq<char>, domain: Seq<char>) -> bool {
    &&& line_fields(line) is Some
    &&& is_name_in_zone(r.name, line_fields(line)->Some_0.0, domain)
    &&& dns_name_parse(r.name) is Ok
    &&& is_data_of(r.data, line_fields(line)->Some_0.1, line_fields(line)->Some_0.2)
}

/// Whether a record is one of the groups'.
pub open spec fn holds_record(groups: Seq<GroupView>, r: ZoneRecordView) -> bool {
    exists|i: int| 0 <= i < groups.len() && (#[trigger] groups[i]).records.contains(r)
}

/// Whether what a record says is said of its name.
pub open spec fn is_said_of(groups: Seq<GroupView>, name: Seq<char>, d: DataView) -> bool {
    exists|i: int|
        0 <= i < groups.len() && is_group(#[trigger] groups[i], name_key(name), d.kind()) && is_said(
            groups[i].records,
            d,
        )
}

/// The records after adding one are those before and the one.
proof fn lemma_with_record_holds(
    groups: Seq<GroupView>,
    owner: Seq<char>,
    name: Seq<char>,
    ttl: u32,
    data: DataView,
    r: ZoneRecordView,
)
    requires
        holds_record(with_record(groups, owner, name, ttl, data), r),
    ensures
        r == (ZoneRecordView { name, data }) || holds_record(groups, r),
{
    let after = with_record(groups, owner, name, ttl, data);
    let i = choose|i: int| 0 <= i < after.len() && (#[trigger] after[i]).records.contains(r);
    let new = ZoneRecordView { name, data };
    if exists|k: int| 0 <= k < groups.len() && is_group(#[trigger] groups[k], owner, data.kind()) {
        let k = lemma_first_group(groups, owner, data.kind());
        lemma_with_record_found(groups, k, owner, name, ttl, data);
        if i == k {
            let p = after[i].records.index_of(r);
            if r != new {
                assert(groups[k].records[p] == r);
                assert(groups[k].records.contains(r));
            }
        } else {
            assert(after[i] == groups[i]);
        }
    } else {
        lemma_with_record_new(groups, owner, name, ttl, data);
        if i < groups.len() {
            assert(after[i] == groups[i]);
        } else {
            let p = after[i].records.index_of(r);
        }
    }
}

/// There is a first group of a name and a kind if there is one.
proof fn lemma_first_group(groups: Seq<GroupView>, owner: Seq<char>, kind: RecordKind) -> (k: int)
    requires
        exists|k: int| 0 <= k < groups.len() && is_group(#[trigger] groups[k], owner, kind),
    ensures
        0 <= k < groups.len(),
        is_group(groups[k], owner, kind),
        forall|j: int| 0 <= j < k ==> !is_group(#[trigger] groups[j], owner, kind),
    decreases groups.len(),
{
    if exists|k: int|
        0 <= k < groups.len() - 1 && is_group(#[trigger] groups.drop_last()[k], owner, kind) {
        let k = lemma_first_group(groups.drop_last(), owner, kind);
        assert forall|j: int| 0 <= j < k implies !is_group(#[trigger] groups[j], owner, kind) by {
            assert(groups.drop_last()[j] == groups[j]);
        }
        k
    } else {
        let k = groups.len() - 1;
        assert forall|j: int| 0 <= j < k implies !is_group(#[trigger] groups[j], owner, kind) by {
            assert(groups.drop_last()[j] == groups[j]);
        }
        assert(is_group(groups[k], owner, kind));
        k
    }
}

/// What a record says that was added is said, and so is all that was said before, but for an alias
/// that it replaces.
proof fn lemma_with_record_says(
    groups: Seq<GroupView>,
    name: Seq<char>,
    ttl: u32,
    data: DataView,
    other: Seq<char>,
    d: DataView,
)
    ensures
        is_said_of(with_record(groups, name_key(name), name, ttl, data), name, data),
        is_said_of(groups, other, d) && !(d is Cname && data is Cname && name_key(other) == name_key(
            name,
        )) ==> is_said_of(with_record(groups, name_key(name), name, ttl, data), other, d),
{
    let owner = name_key(name);
    let after = with_record(groups, owner, name, ttl, data);
    let new = ZoneRecordView { name, data };
    if exists|k: int| 0 <= k < groups.len() && is_group(#[trigger] groups[k], owner, data.kind()) {
        let k = lemma_first_group(groups, owner, data.kind());
        lemma_with_record_found(groups, k, owner, name, ttl, data);
        let rs = groups[k].records;
        assert(after[k].records == joined_by(rs, name, data));
        if data.kind() == RecordKind::Cname {
            assert(after[k].records[0] == new);
        } else if !is_said(rs, data) {
            assert(after[k].records[rs.len() as int] == new);
        }
        assert(is_said(after[k].records, data));
        assert(is_group(after[k], owner, data.kind()));
        if is_said_of(groups, other, d) && !(d is Cname && data is Cname && name_key(other)
            == name_key(name)) {
            let i = choose|i: int|
                0 <= i < groups.len() && is_group(#[trigger] groups[i], name_key(other), d.kind())
                    && is_said(groups[i].records, d);
            if i == k {
                let p = choose|p: int| 0 <= p < rs.len() && same_data((#[trigger] rs[p]).data, d);
                assert(after[k].records[p] == rs[p]);
            } else {
                assert(after[i] == groups[i]);
            }
            assert(is_said(after[i].records, d));
            assert(is_group(after[i], name_key(other), d.kind()));
        }
    } else {
        lemma_with_record_new(groups, owner, name, ttl, data);
        let n = groups.len() as int;
        assert(after[n].records[0] == new);
        assert(is_said(after[n].records, data));
        assert(is_group(after[n], owner, data.kind()));
        if is_said_of(groups, other, d) {
            let i = choose|i: int|
                0 <= i < groups.len() && is_group(#[trigger] groups[i], name_key(other), d.kind())
                    && is_said(groups[i].records, d);
            assert(after[i] == groups[i]);
        }
    }
}

/// The record of a line, if it is one that a zone is made of, has the name and says what the line
/// says.
proof fn lemma_line_record(line: Seq<char>, domain: Seq<char>)
    ensures
        line_fields(line) is Some ==> {
            let f = line_fields(line)->Some_0;
            let full = full_name(f.0, domain);
            &&& is_name_in_zone(full, f.0, domain)
            &&& record_data(f.1, f.2) is Some ==> is_data_of(
                record_data(f.1, f.2)->Some_0,
                f.1,
                f.2,
            )
            &&& forall|d: DataView| is_data_of(d, f.1, f.2) ==> record_data(f.1, f.2) == Some(d)
            &&& forall|x: Seq<char>| is_name_in_zone(x, f.0, domain) ==> x == full
        },
{
    lemma_type_names();
    reveal_strlit(".");
    reveal_strlit("@");
    if line_fields(line) is Some {
        let f = line_fields(line)->Some_0;
        let full = full_name(f.0, domain);
        if f.0 != "@"@ && !(f.0.len() > 0 && f.0.last() == '.') {
            assert(full.subrange(0, f.0.len() as int) =~= f.0);
            assert(full.subrange(full.len() - domain.len(), full.len() as int) =~= domain);
            assert forall|x: Seq<char>| is_name_in_zone(x, f.0, domain) implies x == full by {
                let n = f.0.len() as int;
                assert(x.subrange(0, n) == f.0);
                assert(x.subrange(x.len() - domain.len(), x.len() as int) == domain);
                assert forall|i: int| 0 <= i < x.len() implies #[trigger] x[i] == full[i] by {
                    if i < n {
                        assert(x[i] == x.subrange(0, n)[i]);
                    } else if i > n {
                        assert(x[i] == x.subrange(x.len() - domain.len(), x.len() as int)[i - n - 1]);
                    }
                }
                assert(x =~= full);
            }
        }
    }
}

/// Every configured record comes from a line.
proof fn lemma_static_records_come_from_lines(
    lines: Seq<Seq<char>>,
    domain: Seq<char>,
    r: ZoneRecordView,
)
    requires
        holds_record(static_groups(lines, domain), r),
    ensures
        exists|j: int| 0 <= j < lines.len() && is_of_line(r, #[trigger] lines[j], domain),
    decreases lines.len(),
{
    if lines.len() > 0 {
        let front = lines.drop_last();
        let before = static_groups(front, domain);
        lemma_line_record(lines.last(), domain);
        let n = lines.len() - 1;
        assert(lines[n] == lines.last());
        if holds_record(before, r) {
            lemma_static_records_come_from_lines(front, domain, r);
            let j = choose|j: int| 0 <= j < front.len() && is_of_line(r, #[trigger] front[j], domain);
            assert(lines[j] == front[j]);
        } else {
            let f = line_fields(lines.last())->Some_0;
            let full = full_name(f.0, domain);
            let d = record_data(f.1, f.2)->Some_0;
            lemma_with_record_holds(before, name_key(full), full, STATIC_TTL, d, r);
            assert(is_of_line(r, lines[n], domain));
        }
    }
}

/// Whether a line behind line `j` gives an alias to the same name.
pub open spec fn is_replaced(lines: Seq<Seq<char>>, domain: Seq<char>, j: int, r: ZoneRecordView) -> bool {
    exists|k: int, s: ZoneRecordView|
        j < k < lines.len() && #[trigger] is_of_line(s, lines[k], domain) && s.data is Cname
            && dns_name_parse(s.name)->Ok_0.1 == dns_name_parse(r.name)->Ok_0.1
}

/// What every line says is said of its name, but for an alias that a later line replaces.
proof fn lemma_static_lines_are_said(
    lines: Seq<Seq<char>>,
    domain: Seq<char>,
    j: int,
    r: ZoneRecordView,
)
    requires
        0 <= j < lines.len(),
        is_of_line(r, lines[j], domain),
    ensures
        r.data is Cname && is_replaced(lines, domain, j, r) || is_said_of(
            static_groups(lines, domain),
            r.name,
            r.data,
        ),
    decreases lines.len(),
{
    let front = lines.drop_last();
    let before = static_groups(front, domain);
    let last = lines.last();
    let n = lines.len() - 1;
    assert(lines[n] == last);
    lemma_line_record(last, domain);
    lemma_line_record(lines[j], domain);
    if j == n {
        lemma_with_record_says(before, r.name, STATIC_TTL, r.data, r.name, r.data);
    } else {
        assert(front[j] == lines[j]);
        lemma_static_lines_are_said(front, domain, j, r);
        if r.data is Cname && is_replaced(front, domain, j, r) {
            let (k, s) = choose|k: int, s: ZoneRecordView|
                j < k < front.len() && #[trigger] is_of_line(s, front[k], domain) && s.data is Cname
                    && dns_name_parse(s.name)->Ok_0.1 == dns_name_parse(r.name)->Ok_0.1;
            assert(front[k] == lines[k]);
            assert(is_of_line(s, lines[k], domain));
        } else {
            match line_fields(last) {
                None => {},
                Some((name, rtype, data)) => {
                    let full = full_name(name, domain);
                    if dns_name_parse(full) is Ok && record_data(rtype, data) is Some {
                        let d = record_data(rtype, data)->Some_0;
                        lemma_with_record_says(before, full, STATIC_TTL, d, r.name, r.data);
                        let s = ZoneRecordView { name: full, data: d };
                        assert(is_of_line(s, lines[n], domain));
                    }
                },
            }
        }
    }
}

/// The names of a record's name server and administrator in the authority: as configured, with a dot
/// at the end, if that is a name, and otherwise the zone's own.
pub open spec fn is_name_or_own(res: Seq<char>, name: Seq<char>, domain: Seq<char>) -> bool {
    if name.len() == 0 {
        res == domain
    } else {
        let full = if name[name.len() - 1] == '.' {
            name
        } else {
            name.push('.')
        };
        if dns_name_parse(full) is Ok {
            res == full
        } else {
            res == domain
        }
    }
}

/// Whether two records say the same: they are the same, or mention the same name, written otherwise.
pub open spec fn agrees(a: DataView, b: DataView) -> bool {
    ||| a == b
    ||| (a is Ns && b is Ns && dns_name_parse(a->Ns_0) is Ok && dns_name_parse(b->Ns_0) is Ok
        && dns_name_parse(a->Ns_0)->Ok_0.1 == dns_name_parse(b->Ns_0)->Ok_0.1)
    ||| (a is Cname && b is Cname && dns_name_parse(a->Cname_0) is Ok && dns_name_parse(b->Cname_0)
        is Ok && dns_name_parse(a->Cname_0)->Ok_0.1 == dns_name_parse(b->Cname_0)->Ok_0.1)
}

/// Whether no two records say the same.
pub open spec fn says_once(records: Seq<ZoneRecordView>) -> bool {
    forall|p: int, q: int|
        0 <= p < q < records.len() ==> !agrees(
            (#[trigger] records[p]).data,
            (#[trigger] records[q]).data,
        )
}

/// Whether one of the records says something.
pub open spec fn tells(records: Seq<ZoneRecordView>, d: DataView) -> bool {
    exists|p: int| 0 <= p < records.len() && agrees((#[trigger] records[p]).data, d)
}

/// Whether something is said of a name.
pub open spec fn is_told_of(groups: Seq<GroupView>, name: Seq<char>, d: DataView) -> bool {
    exists|i: int|
        0 <= i < groups.len() && (#[trigger] groups[i]).owner == dns_name_parse(name)->Ok_0.1
            && groups[i].kind == d.kind() && tells(groups[i].records, d)
}

proof fn lemma_told(groups: Seq<GroupView>, name: Seq<char>, d: DataView)
    requires
        is_said_of(groups, name, d),
        dns_name_parse(name) is Ok,
        mentions_names(d),
        forall|i: int| 0 <= i < groups.len() ==> is_well_named(#[trigger] groups[i]),
    ensures
        is_told_of(groups, name, d),
{
    let i = choose|i: int|
        0 <= i < groups.len() && is_group(#[trigger] groups[i], name_key(name), d.kind()) && is_said(
            groups[i].records,
            d,
        );
    let rs = groups[i].records;
    let p = choose|p: int| 0 <= p < rs.len() && same_data((#[trigger] rs[p]).data, d);
    assert(is_well_named(groups[i]));
    assert(mentions_names(rs[p].data));
    assert(agrees(rs[p].data, d));
    assert(tells(rs, d));
}

/// A zone holds a record for each configured line that is one, under the name that the line gives it,
/// and no others but that of its name server and its authority. `r` is any record.
pub proof fn law_zone_is_what_is_configured(
    general: General,
    serial: u32,
    h: AcmeDnsHandler,
    domain: Seq<char>,
    j: int,
    r: ZoneRecordView,
    m: Seq<char>,
    a: Seq<char>,
)
    requires
        call_ensures(AcmeDnsHandler::with_serial, (&general, serial), Ok(h)),
        domain == (if general.domain@.len() > 0 && general.domain@.last() == '.' {
            general.domain@
        } else {
            general.domain@.push('.')
        }),
        is_name_or_own(m, general.nsname@, domain),
        is_name_or_own(a, general.nsadmin@, domain),
    ensures
        dns_name_parse(domain) is Ok,
        h.origin@ == domain,
        h.own_domain@ == dns_name_parse(domain)->Ok_0.0,
        holds_record(groups_view(h.zone@), r) ==> {
            ||| exists|k: int|
                0 <= k < general.static_records@.len() && is_of_line(
                    r,
                    (#[trigger] general.static_records@[k])@,
                    domain,
                )
            ||| general.nsname@.len() > 0 && r.name == domain && r.data == DataView::Ns(m)
            ||| r.name == domain && r.data == DataView::Soa(
                m,
                a,
                serial,
                86400,
                7200,
                3600000,
                1,
            )
        },
        0 <= j < general.static_records@.len() && is_of_line(
            r,
            general.static_records@[j]@,
            domain,
        ) ==> r.data is Cname && is_replaced(texts(general.static_records@), domain, j, r)
            || is_told_of(groups_view(h.zone@), r.name, r.data),
        general.nsname@.len() > 0 && dns_name_parse(rooted(general.nsname@)) is Ok ==> is_told_of(
            groups_view(h.zone@),
            domain,
            DataView::Ns(m),
        ),
        is_told_of(
            groups_view(h.zone@),
            domain,
            DataView::Soa(m, a, serial, 86400, 7200, 3600000, 1),
        ),
        forall|i: int| 0 <= i < h.zone@.len() ==> says_once((#[trigger] h.zone@[i])@.records),
        forall|i: int, k: int|
            0 <= i < k < h.zone@.len() ==> (#[trigger] h.zone@[i]).owner@ != (
            #[trigger] h.zone@[k]).owner@ || h.zone@[i].kind != h.zone@[k].kind,
        forall|i: int|
            0 <= i < h.zone@.len() ==> (#[trigger] h.zone@[i]).ttl == (if h.zone@[i].kind
                == RecordKind::Soa {
                serial
            } else {
                86400
            }),
{
    reveal_strlit(".");
    assert(general.domain@ + "."@ =~= general.domain@.push('.'));
    assert(general.nsname@ + "."@ =~= general.nsname@.push('.'));
    assert(general.nsadmin@ + "."@ =~= general.nsadmin@.push('.'));
    assert(domain == rooted(general.domain@));
    let owner = name_key(domain);
    let lines = texts(general.static_records@);
    let first = static_groups(lines, domain);
    let second = with_name_server(first, general.nsname@, domain, owner);
    let all = zone_groups(general, domain, owner, serial);
    let g = authority_group(general, domain, owner, serial);
    assert(all == second.push(g));
    assert(groups_view(h.zone@) == all);
    let has_ns = general.nsname@.len() > 0 && dns_name_parse(rooted(general.nsname@)) is Ok;
    assert(m == name_or_own(general.nsname@, domain));
    assert(a == name_or_own(general.nsadmin@, domain));
    let soa = DataView::Soa(m, a, serial, 86400, 7200, 3600000, 1);
    assert(g.records[0].data == soa);
    assert(all[second.len() as int] == g);
    assert(is_said(g.records, soa));
    assert(is_group(all[second.len() as int], name_key(domain), soa.kind()));
    law_zone_is_well_named(general, domain, owner, serial);
    lemma_told(all, domain, soa);
    if holds_record(all, r) {
        let i = choose|i: int| 0 <= i < all.len() && (#[trigger] all[i]).records.contains(r);
        if i == second.len() {
            let p = g.records.index_of(r);
            assert(r == g.records[0]);
        } else {
            assert(all[i] == second[i]);
            assert(holds_record(second, r));
            if has_ns {
                lemma_with_record_holds(first, owner, domain, STATIC_TTL, DataView::Ns(m), r);
            }
            if holds_record(first, r) {
                lemma_static_records_come_from_lines(lines, domain, r);
                let k = choose|k: int|
                    0 <= k < lines.len() && is_of_line(r, #[trigger] lines[k], domain);
                assert(lines[k] == general.static_records@[k]@);
            }
        }
    }
    if has_ns {
        lemma_with_record_says(
            first,
            domain,
            STATIC_TTL,
            DataView::Ns(m),
            r.name,
            r.data,
        );
        lemma_said_before(second, g, domain, DataView::Ns(m));
        lemma_told(all, domain, DataView::Ns(m));
    }
    if 0 <= j < lines.len() && is_of_line(r, general.static_records@[j]@, domain) {
        assert(lines[j] == general.static_records@[j]@);
        lemma_static_lines_are_said(lines, domain, j, r);
        if is_said_of(first, r.name, r.data) {
            lemma_said_before(second, g, r.name, r.data);
            lemma_told(all, r.name, r.data);
        }
    }
    lemma_ttls(lines, domain);
    lemma_static_groups(lines, domain);
    lemma_name_server_is_no_authority(first, general.nsname@, domain, owner);
    if has_ns {
        lemma_with_record_ttl(first, owner, domain, DataView::Ns(m));
    }
    lemma_zone_groups(general, domain, owner, serial);
    assert forall|i: int| 0 <= i < h.zone@.len() implies says_once(
        (#[trigger] h.zone@[i])@.records,
    ) by {
        assert(all[i] == h.zone@[i]@);
        let rs = all[i].records;
        assert(is_well_named(all[i]));
        assert(says_nothing_twice(rs));
        assert forall|p: int, q: int| 0 <= p < q < rs.len() implies !agrees(
            (#[trigger] rs[p]).data,
            (#[trigger] rs[q]).data,
        ) by {
            assert(mentions_names(rs[p].data) && mentions_names(rs[q].data));
        }
    }
    assert forall|i: int, k: int| 0 <= i < k < h.zone@.len() implies (#[trigger] h.zone@[i]).owner@
        != (#[trigger] h.zone@[k]).owner@ || h.zone@[i].kind != h.zone@[k].kind by {
        assert(all[i] == h.zone@[i]@ && all[k] == h.zone@[k]@);
    }
    assert forall|i: int| 0 <= i < h.zone@.len() implies (#[trigger] h.zone@[i]).ttl == (if h.zone@[i].kind
        == RecordKind::Soa {
        serial
    } else {
        86400
    }) by {
        assert(all[i] == h.zone@[i]@);
        if i < second.len() {
            assert(all[i] == second[i]);
        }
    }
}

/// What is said is said with one group more.
proof fn lemma_said_before(groups: Seq<GroupView>, g: GroupView, name: Seq<char>, d: DataView)
    requires
        is_said_of(groups, name, d),
    ensures
        is_said_of(groups.push(g), name, d),
{
    let i = choose|i: int|
        0 <= i < groups.len() && is_group(#[trigger] groups[i], name_key(name), d.kind()) && is_said(
            groups[i].records,
            d,
        );
    assert(groups.push(g)[i] == groups[i]);
}

/// A record that is added lives as long as the others.
proof fn lemma_with_record_ttl(groups: Seq<GroupView>, owner: Seq<char>, name: Seq<char>, data: DataView)
    requires
        forall|i: int| 0 <= i < groups.len() ==> (#[trigger] groups[i]).ttl == 86400,
    ensures
        forall|i: int|
            0 <= i < with_record(groups, owner, name, STATIC_TTL, data).len() ==> (
            #[trigger] with_record(groups, owner, name, STATIC_TTL, data)[i]).ttl == 86400,
{
    if exists|k: int| 0 <= k < groups.len() && is_group(#[trigger] groups[k], owner, data.kind()) {
        let k = lemma_first_group(groups, owner, data.kind());
        lemma_with_record_found(groups, k, owner, name, STATIC_TTL, data);
    } else {
        lemma_with_record_new(groups, owner, name, STATIC_TTL, data);
    }
}

/// Every configured record lives for a day.
proof fn lemma_ttls(lines: Seq<Seq<char>>, domain: Seq<char>)
    ensures
        forall|i: int|
            0 <= i < static_groups(lines, domain).len() ==> (#[trigger] static_groups(
                lines,
                domain,
            )[i]).ttl == 86400,
    decreases lines.len(),
{
    if lines.len() > 0 {
        lemma_ttls(lines.drop_last(), domain);
        match line_fields(lines.last()) {
            None => {},
            Some((name, rtype, data)) => {
                let full = full_name(name, domain);
                if dns_name_parse(full) is Ok && record_data(rtype, data) is Some {
                    lemma_with_record_ttl(
                        static_groups(lines.drop_last(), domain),
                        name_key(full),
                        full,
                        record_data(rtype, data)->Some_0,
                    );
                }
            },
        }
    }
}

/// Whether the record at `i` has no room in a zone: its name is also that of the group at `k`, one of
/// the two is an alias and the other is not, and the other of the two was taken before it. Addresses
/// of version 4 and name servers are taken before aliases, and the others after them.
pub open spec fn is_without_room(groups: Seq<GroupView>, i: int, k: int) -> bool {
    &&& 0 <= i < groups.len()
    &&& 0 <= k < groups.len()
    &&& groups[i].owner == groups[k].owner
    &&& (groups[i].kind == RecordKind::Cname && (groups[k].kind == RecordKind::A || groups[k].kind
        == RecordKind::Ns)) || (groups[k].kind == RecordKind::Cname && (groups[i].kind
        == RecordKind::Soa || groups[i].kind == RecordKind::Aaaa) && forall|j: int|
        0 <= j < groups.len() && (#[trigger] groups[j]).owner == groups[i].owner ==> groups[j].kind
            != RecordKind::A && groups[j].kind != RecordKind::Ns)
}

/// Whether a text complains about the record at `i`, which has no room because of that at `k`.
pub open spec fn is_complaint(
    groups: Seq<GroupView>,
    i: int,
    k: int,
    zone: Seq<char>,
    m: Seq<char>,
) -> bool {
    &&& is_without_room(groups, i, k)
    &&& m == "Failed to initialize static zone records: Failed to insert "@ + dns_name_parse(
        groups[i].name,
    )->Ok_0.0 + " "@ + (match groups[i].kind {
        RecordKind::Soa => "SOA"@,
        RecordKind::Aaaa => "AAAA"@,
        _ => "CNAME"@,
    }) + " to zone: "@ + zone
}

/// A zone is refused if its domain is no name, or if something else is said of a name that is an
/// alias; and the complaint names what has no room.
pub proof fn law_refused_zones(
    general: General,
    serial: u32,
    res: Result<AcmeDnsHandler, String>,
    domain: Seq<char>,
)
    requires
        call_ensures(AcmeDnsHandler::with_serial, (&general, serial), res),
        domain == (if general.domain@.len() > 0 && general.domain@.last() == '.' {
            general.domain@
        } else {
            general.domain@.push('.')
        }),
    ensures
        dns_name_parse(domain) is Err ==> res is Err && res->Err_0@ == "Invalid domain '"@ + domain
            + "': "@ + dns_name_parse(domain)->Err_0,
        dns_name_parse(domain) is Ok ==> (res is Ok <==> aliases_stand_alone(
            zone_groups(general, domain, dns_name_parse(domain)->Ok_0.1, serial),
        )),
        dns_name_parse(domain) is Ok && res is Err ==> exists|i: int, k: int| #[trigger]
            is_complaint(
                zone_groups(general, domain, dns_name_parse(domain)->Ok_0.1, serial),
                i,
                k,
                dns_name_parse(domain)->Ok_0.0,
                res->Err_0@,
            ),
{
    reveal_strlit(".");
    assert(general.domain@ + "."@ =~= general.domain@.push('.'));
    assert(domain == rooted(general.domain@));
    if dns_name_parse(domain) is Ok {
        let owner = name_key(domain);
        let groups = zone_groups(general, domain, owner, serial);
        law_only_an_alias_stands_in_the_way(general, serial, res);
        law_zone_is_well_named(general, domain, owner, serial);
        if res is Err {
            lemma_first_clash(groups, groups.len() as int);
            let c = first_clash(groups, groups.len() as int)->Some_0;
            let (i, k) = lemma_without_room(general, domain, owner, serial, c);
            assert(is_well_named(groups[i]));
            assert(is_complaint(groups, i, k, dns_name_parse(domain)->Ok_0.0, res->Err_0@));
        }
    }
}

/// Where a group is found it is, and it is found if there is one.
proof fn lemma_place(groups: Seq<GroupView>, owner: Seq<char>, kind: RecordKind)
    ensures
        0 <= place_of(groups, owner, kind) <= groups.len(),
        has_group(groups, owner, kind) ==> is_group(
            groups[place_of(groups, owner, kind)],
            owner,
            kind,
        ),
        forall|j: int|
            0 <= j < groups.len() && (#[trigger] groups[j]).owner == owner && groups[j].kind == kind
                ==> has_group(groups, owner, kind),
    decreases groups.len(),
{
    if groups.len() > 0 && !is_group(groups[0], owner, kind) {
        let rest = groups.drop_first();
        lemma_place(rest, owner, kind);
        assert forall|j: int|
            0 <= j < groups.len() && (#[trigger] groups[j]).owner == owner && groups[j].kind
                == kind implies has_group(groups, owner, kind) by {
            assert(rest[j - 1] == groups[j]);
        }
    }
}

/// A zone is made of five kinds of records.
proof fn lemma_zone_kinds(general: General, domain: Seq<char>, owner: Seq<char>, serial: u32)
    ensures
        forall|i: int|
            0 <= i < zone_groups(general, domain, owner, serial).len() ==> (#[trigger] zone_groups(
                general,
                domain,
                owner,
                serial,
            )[i]).kind != RecordKind::Other,
{
    lemma_zone_groups(general, domain, owner, serial);
    let all = zone_groups(general, domain, owner, serial);
    assert forall|i: int| 0 <= i < all.len() implies (#[trigger] all[i]).kind != RecordKind::Other by {
        assert(all[i].records.len() > 0);
        let d = all[i].records[0].data;
        assert(d.kind() == all[i].kind);
        match d {
            DataView::A(_) => {},
            DataView::Aaaa(_) => {},
            DataView::Ns(_) => {},
            DataView::Cname(_) => {},
            DataView::Soa(..) => {},
        }
    }
}

/// The records of an answer are made token by token: one more that is fetched is one more record
/// behind the others, unless it is empty.
pub proof fn law_tokens_one_by_one(
    before: Vec<String>,
    last: String,
    all: Vec<String>,
    account: bool,
    of_before: TxtAnswer,
    of_all: TxtAnswer,
)
    requires
        call_ensures(AcmeDnsHandler::txt_answer, (before, account), of_before),
        call_ensures(AcmeDnsHandler::txt_answer, (all, account), of_all),
        texts(all@) == texts(before@).push(last@),
    ensures
        of_all is Records,
        ({
            let old_records = if of_before is Records {
                texts(of_before->Records_0@)
            } else {
                Seq::empty()
            };
            texts(of_all->Records_0@) == (if last@.len() > 0 {
                old_records.push(last@)
            } else {
                old_records
            })
        }),
{
    reveal(Seq::filter);
    assert(texts(all@).len() == all@.len());
    assert(texts(before@).len() == before@.len());
    assert(texts(all@).drop_last() =~= texts(before@));
    if before@.len() == 0 {
        assert(texts(before@) =~= Seq::empty());
        assert(texts(before@).filter(is_full()) =~= Seq::empty());
    }
}

/// What is fetched of a subdomain are the tokens that [`DbPool::txt_values`] reads from its rows.
pub proof fn law_fetched_tokens_are_read(rows: Vec<TxtRow>, fetched: Fetched, read: Vec<String>)
    requires
        call_ensures(AcmeDnsHandler::get_txt_cached, (Some(rows),), fetched),
        call_ensures(DbPool::txt_values, (rows,), read),
    ensures
        texts(fetched.values@) == texts(read@),
{
}

/// A zone has the serial number of the hour at which it is set up.
pub proof fn law_serial_number_is_the_hour(general: General, res: Result<AcmeDnsHandler, String>)
    requires
        call_ensures(AcmeDnsHandler::new, (&general,), res),
    ensures
        exists|secs: i64|
            secs >= 0 && (#[trigger] utc_text(secs, "%Y%m%d%H"@)) is Some && sets_up(
                general,
                serial_of(utc_text(secs, "%Y%m%d%H"@)->Some_0),
                res,
            ),
{
}

/// Configured records live for a day and challenges for a second; ten thousand subdomains are kept
/// for two seconds each.
pub proof fn law_numbers_of_the_zone()
    ensures
        STATIC_TTL == 24 * 60 * 60,
        TXT_TTL == 1,
        TXT_CACHE_CAPACITY == 10_000,
        TXT_CACHE_TTL == 2,
{
}

/// Of several names that cannot have all their records, the complaint is about the first in the order
/// of names: no other precedes it. `precedes` is taken to be an order.
pub proof fn law_first_name_is_complained_of(general: General, serial: u32, m: String, domain: Seq<char>)
    requires
        call_ensures(AcmeDnsHandler::with_serial, (&general, serial), Err(m)),
        domain == (if general.domain@.len() > 0 && general.domain@.last() == '.' {
            general.domain@
        } else {
            general.domain@.push('.')
        }),
        dns_name_parse(domain) is Ok,
        forall|x: Seq<char>, y: Seq<char>, z: Seq<char>| #[trigger]
            dns_name_precedes(x, y) && #[trigger] dns_name_precedes(y, z) ==> dns_name_precedes(x, z),
        forall|x: Seq<char>| !#[trigger] dns_name_precedes(x, x),
    ensures
        exists|c: int, i: int, k: int| #[trigger]
            is_first_complaint(
                zone_groups(general, domain, dns_name_parse(domain)->Ok_0.1, serial),
                c,
                i,
                k,
                dns_name_parse(domain)->Ok_0.0,
                m@,
            ),
{
    reveal_strlit(".");
    assert(general.domain@ + "."@ =~= general.domain@.push('.'));
    let owner = name_key(domain);
    let zone = dns_name_parse(domain)->Ok_0.0;
    let groups = zone_groups(general, domain, owner, serial);
    law_zone_is_well_named(general, domain, owner, serial);
    lemma_first_clash(groups, groups.len() as int);
    lemma_first_clash_is_least(groups, groups.len() as int);
    let c = first_clash(groups, groups.len() as int)->Some_0;
    let (i, k) = lemma_without_room(general, domain, owner, serial, c);
    assert(is_well_named(groups[i]));
    assert(is_complaint(groups, i, k, zone, m@));
    assert forall|a: int, b: int|
        0 <= a < groups.len() && 0 <= b < groups.len() && (#[trigger] groups[a]).kind
            == RecordKind::Cname && (#[trigger] groups[b]).kind != RecordKind::Cname
            && groups[b].owner == groups[a].owner implies !dns_name_precedes(
        groups[a].name,
        groups[c].name,
    ) by {
        assert(clashes(groups, a));
    }
    assert(is_first_complaint(groups, c, i, k, zone, m@));
}

/// Whether a text complains about the record at `i`, whose name is that of the alias at `c`, and no
/// other alias beside which something is said comes before that one.
pub open spec fn is_first_complaint(
    groups: Seq<GroupView>,
    c: int,
    i: int,
    k: int,
    zone: Seq<char>,
    m: Seq<char>,
) -> bool {
    &&& is_complaint(groups, i, k, zone, m)
    &&& 0 <= c < groups.len()
    &&& groups[c].kind == RecordKind::Cname
    &&& groups[c].owner == groups[i].owner
    &&& forall|a: int, b: int|
        0 <= a < groups.len() && 0 <= b < groups.len() && (#[trigger] groups[a]).kind
            == RecordKind::Cname && (#[trigger] groups[b]).kind != RecordKind::Cname
            && groups[b].owner == groups[a].owner ==> !dns_name_precedes(
            groups[a].name,
            groups[c].name,
        )
}

/// No clash comes before the first.
proof fn lemma_first_clash_is_least(groups: Seq<GroupView>, n: int)
    requires
        0 <= n <= groups.len(),
        forall|x: Seq<char>, y: Seq<char>, z: Seq<char>| #[trigger]
            dns_name_precedes(x, y) && #[trigger] dns_name_precedes(y, z) ==> dns_name_precedes(x, z),
        forall|x: Seq<char>| !#[trigger] dns_name_precedes(x, x),
    ensures
        first_clash(groups, n) matches Some(c) ==> forall|a: int|
            0 <= a < n && #[trigger] clashes(groups, a) ==> !dns_name_precedes(
                groups[a].name,
                groups[c].name,
            ),
    decreases n,
{
    if n > 0 {
        lemma_first_clash_is_least(groups, n - 1);
        lemma_first_clash(groups, n - 1);
    }
}

/// What has no room beside the alias at `c`, and what takes it.
proof fn lemma_without_room(
    general: General,
    domain: Seq<char>,
    owner: Seq<char>,
    serial: u32,
    c: int,
) -> (r: (int, int))
    requires
        clashes(zone_groups(general, domain, owner, serial), c),
    ensures
        is_without_room(zone_groups(general, domain, owner, serial), r.0, r.1),
        r.0 == without_room(zone_groups(general, domain, owner, serial), c),
        zone_groups(general, domain, owner, serial)[r.0].owner == zone_groups(
            general,
            domain,
            owner,
            serial,
        )[c].owner,
{
    let groups = zone_groups(general, domain, owner, serial);
    let o = groups[c].owner;
    let j = choose|j: int|
        0 <= j < groups.len() && (#[trigger] groups[j]).owner == groups[c].owner && groups[j].kind
            != RecordKind::Cname;
    lemma_zone_kinds(general, domain, owner, serial);
    lemma_place(groups, o, RecordKind::A);
    lemma_place(groups, o, RecordKind::Ns);
    lemma_place(groups, o, RecordKind::Soa);
    lemma_place(groups, o, RecordKind::Aaaa);
    let i = without_room(groups, c);
    assert(groups[j].kind != RecordKind::Other);
    let k = if has_group(groups, o, RecordKind::A) {
        place_of(groups, o, RecordKind::A)
    } else if has_group(groups, o, RecordKind::Ns) {
        place_of(groups, o, RecordKind::Ns)
    } else {
        c
    };
    assert(is_group(groups[j], o, groups[j].kind));
    assert(is_without_room(groups, i, k));
    (i, k)
}

} // verus!
