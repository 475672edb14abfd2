use vstd::prelude::*;
use vstd::string::StringExecFns;
use vstd::utf8::{encode_utf8, encode_utf8_valid_utf8, is_char_boundary, valid_utf8};
use crate::position::{AccumulatePosition, position_at};
use crate::text::{joined, quote, quoted, quoted_list, views};

verus! {

/// How a client should present a diagnostic.
#[derive(Clone, Copy, Debug, PartialEq, Eq, Structural)]
pub enum Severity {
    Error,
    Warning,
    Information,
    Hint,
}

/// A zero-based line and UTF-16 column.
#[derive(Clone, Copy, Debug, PartialEq, Eq, Structural)]
pub struct Position {
    pub line: usize,
    pub character: usize,
}

/// A span of a document, from `start` up to `end`.
#[derive(Clone, Copy, Debug, PartialEq, Eq, Structural)]
pub struct Range {
    pub start: Position,
    pub end: Position,
}

/// What the dictionary says of a word.
#[derive(Clone, Debug)]
pub enum Status {
    Valid,
    Invalid,
    Corrections(Vec<String>),
}

/// One word flagged in a buffer: its byte offset, its text and its status.
#[derive(Clone, Debug)]
pub struct Finding {
    pub byte_offset: usize,
    pub typo: String,
    pub corrections: Status,
}

/// A diagnostic as published to the client; `data` carries the corrections
/// so that fixes can be offered later without checking the text again.
#[derive(Clone, Debug)]
pub struct Diagnostic {
    pub range: Range,
    pub severity: Option<Severity>,
    pub source: Option<String>,
    pub message: String,
    pub data: Option<Vec<String>>,
}

/// An edit replacing the text of `range` by `new_text`.
#[derive(Clone, Debug)]
pub struct TextEdit {
    pub range: Range,
    pub new_text: String,
}

/// A quick fix for the diagnostic at index `diagnostic` of a request.
#[derive(Clone, Debug)]
pub struct CodeAction {
    pub title: String,
    pub diagnostic: usize,
    pub edit: TextEdit,
    pub is_preferred: bool,
}

/// Label carried by every diagnostic of this server.
pub open spec fn source_label() -> Seq<char> {
    "typos"@
}

/// Length in bytes of a finding's text.
pub open spec fn typo_len(f: Finding) -> int {
    encode_utf8(f.typo@).len() as int
}

/// The message shown for a word with the given status.
pub open spec fn message_of(typo: Seq<char>, status: Status) -> Seq<char> {
    match status {
        Status::Corrections(cs) => quoted(typo) + " should be "@ + joined(
            views(cs@).map_values(|s: Seq<char>| quoted(s)),
            ", "@,
        ),
        _ => quoted(typo) + " is disallowed"@,
    }
}

/// The corrections a status carries as payload, if any.
pub open spec fn payload_of(status: Status) -> Option<Seq<Seq<char>>> {
    match status {
        Status::Corrections(cs) => Some(views(cs@)),
        _ => None,
    }
}

pub open spec fn data_view(data: Option<Vec<String>>) -> Option<Seq<Seq<char>>> {
    match data {
        Some(v) => Some(views(v@)),
        None => None,
    }
}

/// Findings that the encoder accepts for buffer bytes `b`: no valid word,
/// each inside the buffer and starting and ending between characters, in
/// ascending order without overlap.
pub open spec fn findings_ordered(b: Seq<u8>, fs: Seq<Finding>) -> bool {
    &&& forall|i: int| 0 <= i < fs.len() ==> !(#[trigger] fs[i].corrections is Valid)
    &&& forall|i: int|
        0 <= i < fs.len() ==> #[trigger] fs[i].byte_offset + typo_len(fs[i]) <= b.len()
    &&& forall|i: int|
        0 <= i < fs.len() ==> is_char_boundary(b, #[trigger] fs[i].byte_offset as int)
            && is_char_boundary(b, fs[i].byte_offset + typo_len(fs[i]))
    &&& forall|i: int|
        0 < i < fs.len() ==> fs[i - 1].byte_offset + typo_len(fs[i - 1])
            <= #[trigger] fs[i].byte_offset
}

/// `d` is the diagnostic for finding `f` in buffer bytes `b`.
pub open spec fn encodes(d: Diagnostic, b: Seq<u8>, f: Finding, severity: Option<Severity>) -> bool {
    let start = position_at(b, f.byte_offset as int);
    let end = position_at(b, f.byte_offset + typo_len(f));
    &&& d.range.start.line == start.0
    &&& d.range.start.character == start.1
    &&& d.range.end.line == end.0
    &&& d.range.end.character == end.1
    &&& d.severity == severity
    &&& d.source matches Some(s) && s@ == source_label()
    &&& d.message@ == message_of(f.typo@, f.corrections)
    &&& data_view(d.data) == payload_of(f.corrections)
}

fn copy_strings(v: &Vec<String>) -> (r: Vec<String>)
    ensures
        views(r@) == views(v@),
{
    let mut r: Vec<String> = Vec::new();
    let mut i: usize = 0;
    while i < v.len()
        invariant
            i <= v@.len(),
            r@.len() == i,
            forall|j: int| 0 <= j < i ==> #[trigger] r@[j]@ == v@[j]@,
        decreases v@.len() - i,
    {
        r.push(v[i].clone());
        i = i + 1;
    }
    assert(views(r@) =~= views(v@));
    r
}

/// The message for a flagged word: disallowed outright, or the list of
/// corrections in the order given.
pub fn message_for(typo: &str, status: &Status) -> (r: String)
    requires
        !(status is Valid),
    ensures
        r@ == message_of(typo@, *status),
{
    let mut m = quote(typo);
    match status {
        Status::Corrections(cs) => {
            m.append(" should be ");
            let list = quoted_list(cs);
            m.append(list.as_str());
        },
        _ => {
            m.append(" is disallowed");
        },
    }
    m
}

fn diagnostic_for(
    accum: &mut AccumulatePosition,
    bytes: &[u8],
    f: &Finding,
    severity: Option<Severity>,
) -> (d: Diagnostic)
    requires
        old(accum).synced(bytes@),
        old(accum).last_offset <= f.byte_offset,
        f.byte_offset + typo_len(*f) <= bytes@.len(),
        bytes@.len() <= isize::MAX,
        !(f.corrections is Valid),
        valid_utf8(bytes@),
        is_char_boundary(bytes@, f.byte_offset as int),
        is_char_boundary(bytes@, f.byte_offset + typo_len(*f)),
    ensures
        encodes(d, bytes@, *f, severity),
        final(accum).synced(bytes@),
        final(accum).last_offset == f.byte_offset + typo_len(*f),
{
    let (line, character) = accum.pos(bytes, f.byte_offset);
    let len = f.typo.as_str().len();
    let (end_line, end_character) = accum.pos(bytes, f.byte_offset + len);
    let message = message_for(f.typo.as_str(), &f.corrections);
    let data = match &f.corrections {
        Status::Corrections(cs) => Some(copy_strings(cs)),
        _ => None,
    };
    Diagnostic {
        range: Range {
            start: Position { line, character },
            end: Position { line: end_line, character: end_character },
        },
        severity,
        source: Some(String::from_str("typos")),
        message,
        data,
    }
}

/// Diagnostics for the findings of one check of `buffer`, in order, sharing
/// one position cursor.
pub fn diagnostics_for(buffer: &str, findings: &Vec<Finding>, severity: Option<Severity>) -> (r: Vec<
    Diagnostic,
>)
    requires
        encode_utf8(buffer@).len() <= isize::MAX,
        findings_ordered(encode_utf8(buffer@), findings@),
    ensures
        r@.len() == findings@.len(),
        forall|i: int|
            0 <= i < r@.len() ==> encodes(
                #[trigger] r@[i],
                encode_utf8(buffer@),
                findings@[i],
                severity,
            ),
{
    let bytes = buffer.as_bytes();
    let ghost b = encode_utf8(buffer@);
    proof {
        encode_utf8_valid_utf8(buffer@);
    }
    let mut accum = AccumulatePosition::new();
    let mut r: Vec<Diagnostic> = Vec::new();
    let mut i: usize = 0;
    while i < findings.len()
        invariant
            bytes@ == b,
            b.len() <= isize::MAX,
            valid_utf8(b),
            findings_ordered(b, findings@),
            i <= findings@.len(),
            r@.len() == i,
            accum.synced(b),
            i == 0 ==> accum.last_offset == 0,
            i > 0 ==> accum.last_offset == findings@[i - 1].byte_offset + typo_len(
                findings@[i - 1],
            ),
            forall|j: int| 0 <= j < i ==> encodes(#[trigger] r@[j], b, findings@[j], severity),
        decreases findings@.len() - i,
    {
        let ghost fi = findings@[i as int];
        assert(fi.byte_offset + typo_len(fi) <= b.len());
        assert(!(fi.corrections is Valid));
        assert(is_char_boundary(b, fi.byte_offset as int));
        let d = diagnostic_for(&mut accum, bytes, &findings[i], severity);
        r.push(d);
        i = i + 1;
    }
    r
}


/// The corrections for which fixes are offered on `d`: its payload, when it
/// comes from this server and carries one.
pub open spec fn offered(d: Diagnostic) -> Seq<Seq<char>> {
    if (d.source matches Some(s) && s@ == source_label()) && d.data is Some {
        views(d.data->Some_0@)
    } else {
        Seq::empty()
    }
}

/// The fixes owed for the first `k` diagnostics of `ds`, as (diagnostic
/// index, replacement text, preferred): one per offered correction, in
/// order, preferred exactly when it is the only one.
pub open spec fn fixes_upto(ds: Seq<Diagnostic>, k: int) -> Seq<(int, Seq<char>, bool)>
    decreases k,
{
    if k <= 0 {
        Seq::empty()
    } else {
        fixes_upto(ds, k - 1) + offered(ds[k - 1]).map_values(
            |c: Seq<char>| (k - 1, c, offered(ds[k - 1]).len() == 1),
        )
    }
}

pub open spec fn fix_view(a: CodeAction) -> (int, Seq<char>, bool) {
    (a.diagnostic as int, a.title@, a.is_preferred)
}

/// One quick fix per correction of each diagnostic of this server that
/// carries a payload; each replaces exactly the diagnostic's range by the
/// correction, which is also its title.
pub fn code_actions(diagnostics: &Vec<Diagnostic>) -> (r: Vec<CodeAction>)
    ensures
        r@.map_values(|a: CodeAction| fix_view(a)) == fixes_upto(
            diagnostics@,
            diagnostics@.len() as int,
        ),
        forall|j: int|
            0 <= j < r@.len() ==> {
                &&& (#[trigger] r@[j]).diagnostic < diagnostics@.len()
                &&& r@[j].edit.range == diagnostics@[r@[j].diagnostic as int].range
                &&& r@[j].edit.new_text@ == r@[j].title@
            },
{
    let label = String::from_str("typos");
    let mut r: Vec<CodeAction> = Vec::new();
    let mut i: usize = 0;
    while i < diagnostics.len()
        invariant
            label@ == source_label(),
            i <= diagnostics@.len(),
            r@.map_values(|a: CodeAction| fix_view(a)) == fixes_upto(diagnostics@, i as int),
            forall|j: int|
                0 <= j < r@.len() ==> {
                    &&& (#[trigger] r@[j]).diagnostic < diagnostics@.len()
                    &&& r@[j].edit.range == diagnostics@[r@[j].diagnostic as int].range
                    &&& r@[j].edit.new_text@ == r@[j].title@
                },
        decreases diagnostics@.len() - i,
    {
        let d = &diagnostics[i];
        let ours = match &d.source {
            Some(s) => s.eq(&label),
            None => false,
        };
        let ghost before = r@;
        if ours {
            match &d.data {
                Some(cs) => {
                    let n = cs.len();
                    let mut k: usize = 0;
                    while k < n
                        invariant
                            label@ == source_label(),
                            i < diagnostics@.len(),
                            *d == diagnostics@[i as int],
                            d.data == Some(*cs),
                            offered(*d) == views(cs@),
                            n == cs@.len(),
                            k <= n,
                            r@.map_values(|a: CodeAction| fix_view(a)) == before.map_values(
                                |a: CodeAction| fix_view(a),
                            ) + views(cs@).subrange(0, k as int).map_values(
                                |c: Seq<char>| (i as int, c, n == 1),
                            ),
                            forall|j: int|
                                0 <= j < r@.len() ==> {
                                    &&& (#[trigger] r@[j]).diagnostic < diagnostics@.len()
                                    &&& r@[j].edit.range == diagnostics@[r@[j].diagnostic as int].range
                                    &&& r@[j].edit.new_text@ == r@[j].title@
                                },
                        decreases n - k,
                    {
                        let title = cs[k].clone();
                        let new_text = cs[k].clone();
                        let ghost prev = r@;
                        r.push(
                            CodeAction {
                                title,
                                diagnostic: i,
                                edit: TextEdit { range: d.range, new_text },
                                is_preferred: n == 1,
                            },
                        );
                        k = k + 1;
                        assert(r@.map_values(|a: CodeAction| fix_view(a)) =~= prev.map_values(
                            |a: CodeAction| fix_view(a),
                        ).push(fix_view(r@.last())));
                        assert(views(cs@).subrange(0, k as int).map_values(
                            |c: Seq<char>| (i as int, c, n == 1),
                        ) =~= views(cs@).subrange(0, k - 1).map_values(
                            |c: Seq<char>| (i as int, c, n == 1),
                        ).push((i as int, cs@[k - 1]@, n == 1)));
                    }
                    assert(views(cs@).subrange(0, n as int) =~= views(cs@));
                },
                None => {
                    assert(offered(*d) =~= Seq::<Seq<char>>::empty());
                },
            }
        } else {
            assert(offered(*d) =~= Seq::<Seq<char>>::empty());
        }
        assert(fixes_upto(diagnostics@, i + 1) == fixes_upto(diagnostics@, i as int) + offered(
            diagnostics@[i as int],
        ).map_values(|c: Seq<char>| (i as int, c, offered(diagnostics@[i as int]).len() == 1)));
        i = i + 1;
        assert(r@.map_values(|a: CodeAction| fix_view(a)) =~= fixes_upto(diagnostics@, i as int));
    }
    r
}


/// Round trip: the diagnostic made for a finding with corrections `cs`
/// offers exactly one fix per correction, in order, each preferred exactly
/// when `cs` holds a single correction.
pub proof fn lemma_round_trip_fix(d: Diagnostic, b: Seq<u8>, f: Finding, severity: Option<Severity>)
    requires
        encodes(d, b, f, severity),
        f.corrections is Corrections,
    ensures
        fixes_upto(seq![d], 1) == views(f.corrections->Corrections_0@).map_values(
            |c: Seq<char>| (0int, c, f.corrections->Corrections_0@.len() == 1),
        ),
{
    let cs = f.corrections->Corrections_0@;
    assert(offered(d) == views(cs));
    assert(fixes_upto(seq![d], 0) =~= Seq::empty());
    assert(fixes_upto(seq![d], 1) =~= views(cs).map_values(
        |c: Seq<char>| (0int, c, cs.len() == 1),
    ));
}

/// A finding with the invalid status gives a diagnostic whose message says
/// the word is disallowed, with no payload and so no fixes.
pub proof fn lemma_invalid_offers_nothing(d: Diagnostic, b: Seq<u8>, f: Finding, severity: Option<Severity>)
    requires
        encodes(d, b, f, severity),
        f.corrections is Invalid,
    ensures
        d.message@ == quoted(f.typo@) + " is disallowed"@,
        d.data is None,
        fixes_upto(seq![d], 1).len() == 0,
{
    assert(fixes_upto(seq![d], 0) =~= Seq::empty());
    assert(fixes_upto(seq![d], 1) =~= Seq::empty());
}

/// What a document shows once it is closed: no diagnostics, whatever was
/// published for it before.
pub fn diagnostics_on_close() -> (r: Vec<Diagnostic>)
    ensures
        r@.len() == 0,
{
    Vec::new()
}


/// Diagnostics for a document: none when its path is excluded, whatever the
/// buffer holds, and otherwise those of `diagnostics_for`.
pub fn check_document(
    excluded: bool,
    buffer: &str,
    findings: &Vec<Finding>,
    severity: Option<Severity>,
) -> (r: Vec<Diagnostic>)
    requires
        !excluded ==> encode_utf8(buffer@).len() <= isize::MAX,
        !excluded ==> findings_ordered(encode_utf8(buffer@), findings@),
    ensures
        excluded ==> r@.len() == 0,
        !excluded ==> r@.len() == findings@.len(),
        !excluded ==> forall|i: int|
            0 <= i < r@.len() ==> encodes(
                #[trigger] r@[i],
                encode_utf8(buffer@),
                findings@[i],
                severity,
            ),
{
    if excluded {
        Vec::new()
    } else {
        diagnostics_for(buffer, findings, severity)
    }
}

} // verus!
