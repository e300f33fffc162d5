//! The decisions of the settings client: what a reply means, which reply
//! answers a request, when to send again, and how the replies of a full
//! read are put in order.
use vstd::prelude::*;
use sbp::sbp_string::Multipart;
use sbp::SbpString;
use crate::error::{Error, ErrorView, write_error_of};
use crate::setting::{
    Setting, SettingRegistry, SettingValue, SettingView, ValueView, entry_for, entry_with_format,
    option_value_view, parse_value,
};
use crate::wire::{
    answers, multipart_bytes, payload_fields, request_matches, split_multipart, fields_payload,
    no_nul, law_payload_roundtrip,
};

verus! {

/// The sender id under which the client sends its requests.
pub const SENDER_ID: u16 = 0x42;

/// How many times a failed send is tried again.
pub const RETRIES: usize = 5;

/// A setting together with the value a device reported for it.
#[derive(Debug, PartialEq)]
pub struct Entry {
    pub setting: Setting,
    pub value: Option<SettingValue>,
}

pub struct EntryView {
    pub setting: SettingView,
    pub value: Option<ValueView>,
}

impl View for Entry {
    type V = EntryView;

    open spec fn view(&self) -> EntryView {
        EntryView { setting: self.setting@, value: option_value_view(self.value) }
    }
}

pub open spec fn entry_result_view(r: Result<Entry, Error>) -> Result<EntryView, ErrorView> {
    match r {
        Ok(e) => Ok(e@),
        Err(e) => Err(e@),
    }
}

/// The entry for a setting named in a reply, with the value the reply gives.
pub open spec fn reported_entry(setting: SettingView, value: Seq<char>) -> EntryView {
    EntryView { setting, value: parse_value(value, setting.kind) }
}

/// What a reply to a write says, given its status and the fields of its
/// payload: group, name and value.
pub open spec fn write_reply_meaning(table: Seq<SettingView>, status: u8, fields: Seq<Seq<char>>) -> Result<
    EntryView,
    ErrorView,
> {
    if status != 0 {
        Err(ErrorView::WriteError(write_error_of(status)))
    } else if fields.len() == 3 {
        Ok(reported_entry(entry_for(table, fields[0], fields[1]), fields[2]))
    } else {
        Err(ErrorView::ParseError)
    }
}

/// What a reply to a read says: group and name, then the value if the
/// device has one.
pub open spec fn read_reply_meaning(table: Seq<SettingView>, fields: Seq<Seq<char>>) -> Result<
    EntryView,
    ErrorView,
> {
    if fields.len() == 2 {
        Ok(EntryView { setting: entry_for(table, fields[0], fields[1]), value: None })
    } else if fields.len() == 3 {
        Ok(reported_entry(entry_for(table, fields[0], fields[1]), fields[2]))
    } else {
        Err(ErrorView::ParseError)
    }
}

/// What a reply to a read by index says: group, name and value, then the
/// format type if the device gives one.
pub open spec fn index_reply_meaning(table: Seq<SettingView>, fields: Seq<Seq<char>>) -> Result<
    EntryView,
    ErrorView,
> {
    if fields.len() == 4 {
        let setting = if fields[3].len() == 0 {
            entry_for(table, fields[0], fields[1])
        } else {
            entry_with_format(table, fields[0], fields[1], fields[3])
        };
        Ok(reported_entry(setting, fields[2]))
    } else if fields.len() == 3 {
        Ok(reported_entry(entry_for(table, fields[0], fields[1]), fields[2]))
    } else {
        Err(ErrorView::ParseError)
    }
}

impl Entry {
    /// Reads the reply to a write.
    pub fn from_write_reply(
        registry: &mut SettingRegistry,
        status: u8,
        setting: &SbpString<Vec<u8>, Multipart>,
    ) -> (r: Result<Entry, Error>)
        ensures
            entry_result_view(r) == write_reply_meaning(
                old(registry).table(),
                status,
                payload_fields(multipart_bytes(*setting)),
            ),
            final(registry).table() == old(registry).table(),
            final(registry).is_fixed() == (old(registry).is_fixed() || r is Ok),
    {
        if status != 0 {
            return Err(Error::WriteError(crate::error::WriteError::from(status)));
        }
        let fields = split_multipart(setting);
        let ghost fv = fields@.map_values(|x: String| x@);
        if fields.len() == 3 {
            assert(fv[0] == fields@[0]@ && fv[1] == fields@[1]@ && fv[2] == fields@[2]@);
            let s = Setting::new(registry, fields[0].as_str(), fields[1].as_str());
            let value = SettingValue::parse(fields[2].as_str(), s.kind);
            Ok(Entry { setting: s, value })
        } else {
            Err(Error::ParseError)
        }
    }

    /// Reads the reply to a read.
    pub fn from_read_reply(registry: &mut SettingRegistry, setting: &SbpString<Vec<u8>, Multipart>) -> (r:
        Result<Entry, Error>)
        ensures
            entry_result_view(r) == read_reply_meaning(
                old(registry).table(),
                payload_fields(multipart_bytes(*setting)),
            ),
            final(registry).table() == old(registry).table(),
            final(registry).is_fixed() == (old(registry).is_fixed() || r is Ok),
    {
        let fields = split_multipart(setting);
        let ghost fv = fields@.map_values(|x: String| x@);
        if fields.len() == 2 {
            assert(fv[0] == fields@[0]@ && fv[1] == fields@[1]@);
            let s = Setting::new(registry, fields[0].as_str(), fields[1].as_str());
            Ok(Entry { setting: s, value: None })
        } else if fields.len() == 3 {
            assert(fv[0] == fields@[0]@ && fv[1] == fields@[1]@ && fv[2] == fields@[2]@);
            let s = Setting::new(registry, fields[0].as_str(), fields[1].as_str());
            let value = SettingValue::parse(fields[2].as_str(), s.kind);
            Ok(Entry { setting: s, value })
        } else {
            Err(Error::ParseError)
        }
    }

    /// Reads the reply to a read by index.
    pub fn from_index_reply(registry: &mut SettingRegistry, setting: &SbpString<Vec<u8>, Multipart>) -> (r:
        Result<Entry, Error>)
        ensures
            entry_result_view(r) == index_reply_meaning(
                old(registry).table(),
                payload_fields(multipart_bytes(*setting)),
            ),
            final(registry).table() == old(registry).table(),
            final(registry).is_fixed() == (old(registry).is_fixed() || r is Ok),
    {
        let fields = split_multipart(setting);
        let ghost fv = fields@.map_values(|x: String| x@);
        if fields.len() == 4 {
            assert(fv[0] == fields@[0]@ && fv[1] == fields@[1]@ && fv[2] == fields@[2]@);
            assert(fv[3] == fields@[3]@);
            let s = if fields[3].as_str().is_empty() {
                Setting::new(registry, fields[0].as_str(), fields[1].as_str())
            } else {
                Setting::with_fmt_type(
                    registry,
                    fields[0].as_str(),
                    fields[1].as_str(),
                    fields[3].as_str(),
                )
            };
            let value = SettingValue::parse(fields[2].as_str(), s.kind);
            Ok(Entry { setting: s, value })
        } else if fields.len() == 3 {
            assert(fv[0] == fields@[0]@ && fv[1] == fields@[1]@ && fv[2] == fields@[2]@);
            let s = Setting::new(registry, fields[0].as_str(), fields[1].as_str());
            let value = SettingValue::parse(fields[2].as_str(), s.kind);
            Ok(Entry { setting: s, value })
        } else {
            Err(Error::ParseError)
        }
    }
}

/// How a client takes a reply while it waits for the answer to a read of
/// `group` and `name`: a reply for another setting is no answer; a reply
/// without a value says the device has no value.
pub open spec fn read_answer(table: Seq<SettingView>, group: Seq<char>, name: Seq<char>, fields: Seq<
    Seq<char>,
>) -> Option<Result<Option<EntryView>, ErrorView>> {
    if answers(fields, group, name) {
        Some(
            match read_reply_meaning(table, fields) {
                Ok(e) => Ok(
                    if e.value is Some {
                        Some(e)
                    } else {
                        None
                    },
                ),
                Err(x) => Err(x),
            },
        )
    } else {
        None
    }
}

/// How a client takes a reply while it waits for the answer to a write of
/// `group` and `name`.
pub open spec fn write_answer(
    table: Seq<SettingView>,
    group: Seq<char>,
    name: Seq<char>,
    status: u8,
    fields: Seq<Seq<char>>,
) -> Option<Result<EntryView, ErrorView>> {
    if answers(fields, group, name) {
        Some(write_reply_meaning(table, status, fields))
    } else {
        None
    }
}

/// How a client takes a reply while it waits for the setting at `index`.
pub open spec fn index_answer(table: Seq<SettingView>, index: u16, reply_index: u16, fields: Seq<
    Seq<char>,
>) -> Option<Result<EntryView, ErrorView>> {
    if index == reply_index {
        Some(index_reply_meaning(table, fields))
    } else {
        None
    }
}

pub open spec fn optional_entry_result_view(r: Result<Option<Entry>, Error>) -> Result<
    Option<EntryView>,
    ErrorView,
> {
    match r {
        Ok(Some(e)) => Ok(Some(e@)),
        Ok(None) => Ok(None),
        Err(e) => Err(e@),
    }
}

/// Takes a reply to a read, if it answers the read of `group` and `name`.
pub fn answer_to_read(
    registry: &mut SettingRegistry,
    group: &str,
    name: &str,
    setting: &SbpString<Vec<u8>, Multipart>,
) -> (r: Option<Result<Option<Entry>, Error>>)
    ensures
        match r {
            Some(x) => read_answer(
                old(registry).table(),
                group@,
                name@,
                payload_fields(multipart_bytes(*setting)),
            ) == Some(optional_entry_result_view(x)),
            None => read_answer(
                old(registry).table(),
                group@,
                name@,
                payload_fields(multipart_bytes(*setting)),
            ) is None,
        },
        final(registry).table() == old(registry).table(),
        final(registry).is_fixed() == (old(registry).is_fixed() || r matches Some(Ok(_))),
{
    if !request_matches(group, name, setting) {
        return None;
    }
    match Entry::from_read_reply(registry, setting) {
        Ok(e) => {
            if e.value.is_some() {
                Some(Ok(Some(e)))
            } else {
                Some(Ok(None))
            }
        },
        Err(x) => Some(Err(x)),
    }
}

/// Takes a reply to a write, if it answers the write of `group` and `name`.
pub fn answer_to_write(
    registry: &mut SettingRegistry,
    group: &str,
    name: &str,
    status: u8,
    setting: &SbpString<Vec<u8>, Multipart>,
) -> (r: Option<Result<Entry, Error>>)
    ensures
        match r {
            Some(x) => write_answer(
                old(registry).table(),
                group@,
                name@,
                status,
                payload_fields(multipart_bytes(*setting)),
            ) == Some(entry_result_view(x)),
            None => write_answer(
                old(registry).table(),
                group@,
                name@,
                status,
                payload_fields(multipart_bytes(*setting)),
            ) is None,
        },
        final(registry).table() == old(registry).table(),
        final(registry).is_fixed() == (old(registry).is_fixed() || r matches Some(Ok(_))),
{
    if !request_matches(group, name, setting) {
        return None;
    }
    Some(Entry::from_write_reply(registry, status, setting))
}

/// Takes a reply to a read by index, if it is for `index`.
pub fn answer_to_index(
    registry: &mut SettingRegistry,
    index: u16,
    reply_index: u16,
    setting: &SbpString<Vec<u8>, Multipart>,
) -> (r: Option<Result<Entry, Error>>)
    ensures
        match r {
            Some(x) => index_answer(
                old(registry).table(),
                index,
                reply_index,
                payload_fields(multipart_bytes(*setting)),
            ) == Some(entry_result_view(x)),
            None => index_answer(
                old(registry).table(),
                index,
                reply_index,
                payload_fields(multipart_bytes(*setting)),
            ) is None,
        },
        final(registry).table() == old(registry).table(),
        final(registry).is_fixed() == (old(registry).is_fixed() || r matches Some(Ok(_))),
{
    if index != reply_index {
        return None;
    }
    Some(Entry::from_index_reply(registry, setting))
}

/// What ends the wait for the answer to a read or a write.
pub enum Wakeup<T> {
    Reply(T),
    TimedOut,
    Canceled,
}

/// The result of a read or a write, once the wait is over.
pub fn settle<T>(w: Wakeup<Result<T, Error>>) -> (r: Result<T, Error>)
    ensures
        match w {
            Wakeup::Reply(x) => r == x,
            Wakeup::TimedOut => r matches Err(Error::TimedOut),
            Wakeup::Canceled => r matches Err(Error::Canceled),
        },
{
    match w {
        Wakeup::Reply(x) => x,
        Wakeup::TimedOut => Err(Error::TimedOut),
        Wakeup::Canceled => Err(Error::Canceled),
    }
}

/// What ends the wait for the setting at an index: its reply, the device's
/// word that there are no more settings, the timeout or the cancellation.
pub enum IndexWakeup {
    Reply(Result<Entry, Error>),
    Done,
    TimedOut,
    Canceled,
}

/// The result of a read by index, once the wait is over: nothing once the
/// device has said that there are no more settings.
pub fn settle_index(w: IndexWakeup) -> (r: Result<Option<Entry>, Error>)
    ensures
        match w {
            IndexWakeup::Reply(Ok(e)) => r == Ok::<Option<Entry>, Error>(Some(e)),
            IndexWakeup::Reply(Err(x)) => r == Err::<Option<Entry>, Error>(x),
            IndexWakeup::Done => r matches Ok(None),
            IndexWakeup::TimedOut => r matches Err(Error::TimedOut),
            IndexWakeup::Canceled => r matches Err(Error::Canceled),
        },
{
    match w {
        IndexWakeup::Reply(Ok(e)) => Ok(Some(e)),
        IndexWakeup::Reply(Err(x)) => Err(x),
        IndexWakeup::Done => Ok(None),
        IndexWakeup::TimedOut => Err(Error::TimedOut),
        IndexWakeup::Canceled => Err(Error::Canceled),
    }
}

/// What the client does after an attempt to send a request.
pub enum SendStep {
    /// The request went out.
    Sent,
    /// Pause, then send again; this many attempts have failed.
    Retry(usize),
    /// Give up with the sender's error.
    GaveUp(Error),
}

/// The attempt that follows attempt `tries` (counted from 0) of sending a
/// request, if there is one: a failed send is tried again, `RETRIES`
/// times at most.
pub open spec fn next_attempt(tries: int, sent: bool) -> Option<int> {
    if !sent && tries < RETRIES {
        Some(tries + 1)
    } else {
        None
    }
}

/// Decides, after attempt `tries` of sending a request, whether to send
/// again; when it gives up, the error is the sender's.
pub fn after_send(tries: usize, result: Result<(), String>) -> (r: SendStep)
    ensures
        match next_attempt(tries as int, result is Ok) {
            Some(t) => r == SendStep::Retry(t as usize),
            None => match result {
                Ok(()) => r is Sent,
                Err(e) => r == SendStep::GaveUp(Error::SenderError(e)),
            },
        },
{
    match result {
        Ok(()) => SendStep::Sent,
        Err(e) => {
            if tries < RETRIES {
                SendStep::Retry(tries + 1)
            } else {
                SendStep::GaveUp(Error::SenderError(e))
            }
        },
    }
}

/// How many times a request is sent, from attempt `tries` on, when the
/// attempts turn out as `outcomes` says (`true`: the request went out).
pub open spec fn attempts(tries: int, outcomes: Seq<bool>) -> nat
    decreases outcomes.len(),
{
    if outcomes.len() == 0 {
        0
    } else {
        match next_attempt(tries, outcomes[0]) {
            Some(t) => 1 + attempts(t, outcomes.drop_first()),
            None => 1,
        }
    }
}

proof fn lemma_attempts_bound(tries: int, outcomes: Seq<bool>)
    requires
        0 <= tries <= RETRIES,
    ensures
        attempts(tries, outcomes) <= RETRIES + 1 - tries,
        outcomes.len() > RETRIES - tries && (forall|i: int| 0 <= i < outcomes.len() ==> !#[trigger] outcomes[i])
            ==> attempts(tries, outcomes) == RETRIES + 1 - tries,
    decreases outcomes.len(),
{
    if outcomes.len() > 0 {
        let rest = outcomes.drop_first();
        if next_attempt(tries, outcomes[0]) is Some {
            lemma_attempts_bound(tries + 1, rest);
            assert forall|i: int| 0 <= i < rest.len() implies rest[i] == outcomes[i + 1] by {}
        }
    }
}

/// A request is sent at most `RETRIES + 1` times, and exactly that often
/// when every attempt fails.
pub proof fn law_bounded_retries(outcomes: Seq<bool>)
    ensures
        attempts(0, outcomes) <= RETRIES + 1,
        outcomes.len() > RETRIES && (forall|i: int| 0 <= i < outcomes.len() ==> !#[trigger] outcomes[i])
            ==> attempts(0, outcomes) == RETRIES + 1,
{
    lemma_attempts_bound(0, outcomes);
}

/// Whether a request goes out, from attempt `tries` on, when the attempts
/// turn out as `outcomes` says.
pub open spec fn delivered(tries: int, outcomes: Seq<bool>) -> bool
    decreases outcomes.len(),
{
    if outcomes.len() == 0 {
        false
    } else if outcomes[0] {
        true
    } else {
        match next_attempt(tries, outcomes[0]) {
            Some(t) => delivered(t, outcomes.drop_first()),
            None => false,
        }
    }
}

/// `k` failed attempts, then one that goes out.
pub open spec fn fails_then_sends(k: nat) -> Seq<bool> {
    Seq::new(k + 1, |i: int| i == k)
}

proof fn lemma_fails_then_sends(tries: int, k: nat)
    requires
        0 <= tries <= RETRIES,
    ensures
        attempts(tries, fails_then_sends(k)) == if k <= RETRIES - tries {
            k as int + 1
        } else {
            RETRIES as int + 1 - tries
        },
        delivered(tries, fails_then_sends(k)) == (k <= RETRIES - tries),
    decreases k,
{
    let o = fails_then_sends(k);
    if k > 0 {
        assert(o.drop_first() =~= fails_then_sends((k - 1) as nat));
        if tries < RETRIES {
            lemma_fails_then_sends(tries + 1, (k - 1) as nat);
        }
    }
}

/// A send that fails `k` times and then goes through is made `k + 1`
/// times and delivers the request when `k <= RETRIES`; past that, the
/// client gives up after `RETRIES + 1` attempts.
pub proof fn law_send_after_failures(k: nat)
    ensures
        attempts(0, fails_then_sends(k)) == if k <= RETRIES {
            k as int + 1
        } else {
            RETRIES as int + 1
        },
        delivered(0, fails_then_sends(k)) == (k <= RETRIES),
{
    lemma_fails_then_sends(0, k);
}

/// A device that answers a read or a write with the group, the name and
/// the value is understood: its reply answers the request and gives the
/// table's entry for the setting, with the value read under the setting's
/// kind (for a read, no entry where the value cannot be read).
pub proof fn law_reply_understood(
    table: Seq<SettingView>,
    group: Seq<char>,
    name: Seq<char>,
    value: Seq<char>,
)
    requires
        no_nul(group),
        no_nul(name),
        no_nul(value),
    ensures
        ({
            let fields = payload_fields(fields_payload(seq![group, name, value]));
            let e = reported_entry(entry_for(table, group, name), value);
            &&& answers(fields, group, name)
            &&& write_answer(table, group, name, 0, fields) == Some(
                Ok::<EntryView, ErrorView>(e),
            )
            &&& read_answer(table, group, name, fields) == Some(
                Ok::<Option<EntryView>, ErrorView>(
                    if e.value is Some {
                        Some(e)
                    } else {
                        None
                    },
                ),
            )
        }),
{
    let f = seq![group, name, value];
    assert forall|i: int| 0 <= i < f.len() implies no_nul(#[trigger] f[i]) by {}
    law_payload_roundtrip(f);
}

/// A write reply with a nonzero status is an error, whatever its payload:
/// the one its status stands for; only status 0 can give an entry.
pub proof fn law_nonzero_status_is_error(table: Seq<SettingView>, status: u8, fields: Seq<Seq<char>>)
    ensures
        status != 0 ==> write_reply_meaning(table, status, fields) == Err::<EntryView, ErrorView>(
            ErrorView::WriteError(write_error_of(status)),
        ),
        write_reply_meaning(table, status, fields) is Ok ==> status == 0,
        status == 1 ==> write_reply_meaning(table, status, fields) == Err::<EntryView, ErrorView>(
            ErrorView::WriteError(crate::error::WriteError::ValueRejected),
        ),
{
}

/// In a reply to a read by index, the value is read under the kind of the
/// entry's setting; an empty format type makes the reply mean what a reply
/// of group, name and value means, and a format type changes no kind.
pub proof fn law_index_reply_value(table: Seq<SettingView>, fields: Seq<Seq<char>>)
    ensures
        (fields.len() == 3 || fields.len() == 4) ==> (index_reply_meaning(table, fields) matches Ok(e)
            && e.value == parse_value(fields[2], e.setting.kind)
            && e.setting.kind == entry_for(table, fields[0], fields[1]).kind
            && e.setting.group == entry_for(table, fields[0], fields[1]).group
            && e.setting.name == entry_for(table, fields[0], fields[1]).name),
        fields.len() == 4 && fields[3].len() == 0 ==> index_reply_meaning(table, fields)
            == read_reply_meaning(table, fields.take(3)),
        fields.len() == 3 ==> index_reply_meaning(table, fields) == read_reply_meaning(table, fields),
        !(fields.len() == 3 || fields.len() == 4) ==> index_reply_meaning(table, fields) is Err,
{
    if fields.len() == 4 && fields[3].len() == 0 {
        let f3 = fields.take(3);
        assert(f3.len() == 3);
        assert(f3[0] == fields[0] && f3[1] == fields[1] && f3[2] == fields[2]);
    }
}

/// A reply for another setting does not answer a read or a write.
pub proof fn law_other_replies_ignored(
    table: Seq<SettingView>,
    group: Seq<char>,
    name: Seq<char>,
    status: u8,
    fields: Seq<Seq<char>>,
)
    requires
        fields.len() < 2 || fields[0] != group || fields[1] != name,
    ensures
        read_answer(table, group, name, fields) is None,
        write_answer(table, group, name, status, fields) is None,
{
}

/// What a worker of a full read does with the result of one read by index.
pub enum WorkerStep {
    /// Keep the entry, restart the timeout and read the next index.
    Keep(Entry),
    /// The device has no more settings: stop.
    Finish,
    /// Keep the error and read the next index.
    Note(Error),
    /// Keep the error and stop: the read timed out or was canceled.
    NoteAndStop(Error),
}

pub fn worker_step(outcome: Result<Option<Entry>, Error>) -> (r: WorkerStep)
    ensures
        match outcome {
            Ok(Some(e)) => r == WorkerStep::Keep(e),
            Ok(None) => r is Finish,
            Err(x) => if (x is TimedOut || x is Canceled) {
                r == WorkerStep::NoteAndStop(x)
            } else {
                r == WorkerStep::Note(x)
            },
        },
{
    match outcome {
        Ok(Some(e)) => WorkerStep::Keep(e),
        Ok(None) => WorkerStep::Finish,
        Err(x) => {
            let stop = match x {
                Error::TimedOut | Error::Canceled => true,
                _ => false,
            };
            if stop {
                WorkerStep::NoteAndStop(x)
            } else {
                WorkerStep::Note(x)
            }
        },
    }
}

/// `out` lists the values of `items` by ascending index, values with the
/// same index in the order in which they came; `p` tells, for each place of
/// `out`, the place in `items` its value came from.
pub open spec fn ordered_by_index<T>(items: Seq<(u16, T)>, out: Seq<T>, p: Seq<int>) -> bool {
    &&& p.len() == items.len()
    &&& out.len() == items.len()
    &&& forall|k: int| 0 <= k < p.len() ==> 0 <= #[trigger] p[k] < items.len() && out[k] == items[p[k]].1
    &&& forall|k: int, l: int|
        0 <= k < l < p.len() ==> items[#[trigger] p[k]].0 < items[#[trigger] p[l]].0 || (items[p[k]].0
            == items[p[l]].0 && p[k] < p[l])
}

/// Where the indices of a full read's results are all different, they
/// come out strictly ascending and each result appears once.
pub proof fn law_distinct_indices_ascend<T>(items: Seq<(u16, T)>, out: Seq<T>, p: Seq<int>)
    requires
        ordered_by_index(items, out, p),
        forall|i: int, j: int| 0 <= i < j < items.len() ==> items[i].0 != items[j].0,
    ensures
        forall|k: int, l: int| 0 <= k < l < p.len() ==> items[p[k]].0 < items[p[l]].0,
        forall|i: int| 0 <= i < items.len() ==> #[trigger] p.contains(i),
{
    assert forall|k: int, l: int| 0 <= k < l < p.len() implies items[p[k]].0 < items[p[l]].0 by {
        assert(items[p[k]].0 < items[p[l]].0 || (items[p[k]].0 == items[p[l]].0 && p[k] < p[l]));
        if items[p[k]].0 == items[p[l]].0 {
            assert(items[p[l]].0 != items[p[k]].0);
        }
    }
    assert forall|i: int| 0 <= i < items.len() implies #[trigger] p.contains(i) by {
        lemma_injective_onto(p, items.len() as int, i);
    }
}

proof fn lemma_injective_onto(p: Seq<int>, n: int, i: int)
    requires
        p.len() == n,
        0 <= i < n,
        forall|k: int| 0 <= k < p.len() ==> 0 <= #[trigger] p[k] < n,
        forall|k: int, l: int| 0 <= k < l < p.len() ==> #[trigger] p[k] != #[trigger] p[l],
    ensures
        p.contains(i),
{
    if !p.contains(i) {
        // p maps n places into the n - 1 values other than i, one to one
        let s = p.to_set();
        let others = Set::new(|v: int| 0 <= v < n && v != i);
        assert(s.subset_of(others));
        vstd::set_lib::lemma_int_range(0, n);
        assert(others =~= vstd::set_lib::set_int_range(0, n).remove(i));
        p.unique_seq_to_set();
        vstd::set_lib::lemma_len_subset(s, others);
    }
}

/// Puts the results of a full read in the order of their indices; results
/// with the same index keep the order in which they came.
pub fn order_by_index<T>(items: Vec<(u16, T)>) -> (r: Vec<T>)
    ensures
        exists|p: Seq<int>| ordered_by_index(items@, r@, p),
{
    let ghost orig = items@;
    let mut items = items;
    let mut keys: Vec<u16> = Vec::new();
    let mut vals: Vec<T> = Vec::new();
    let ghost mut p: Seq<int> = Seq::empty();
    assert(orig.take(orig.len() as int) =~= orig);
    while items.len() > 0
        invariant
            items@ == orig.take(items@.len() as int),
            items@.len() <= orig.len(),
            keys@.len() == vals@.len(),
            p.len() == keys@.len(),
            p.len() == orig.len() - items@.len(),
            forall|k: int|
                0 <= k < p.len() ==> items@.len() <= #[trigger] p[k] < orig.len() && keys@[k]
                    == orig[p[k]].0 && vals@[k] == orig[p[k]].1,
            forall|k: int, l: int|
                #![trigger keys@[k], keys@[l]]
                0 <= k < l < p.len() ==> keys@[k] < keys@[l] || (keys@[k] == keys@[l] && p[k] < p[l]),
        decreases items@.len(),
    {
        let ghost i: int = items@.len() - 1;
        let popped = items.pop();
        let (key, val) = match popped {
            Some(kv) => kv,
            None => {
                assert(false);
                return vals;
            },
        };
        assert(orig[i] == (key, val));
        assert(items@ =~= orig.take(i));
        let mut pos: usize = 0;
        while pos < keys.len() && keys[pos] < key
            invariant
                0 <= pos <= keys@.len(),
                forall|k: int| 0 <= k < pos ==> #[trigger] keys@[k] < key,
            decreases keys@.len() - pos,
        {
            pos = pos + 1;
        }
        let ghost old_keys = keys@;
        let ghost old_p = p;
        proof {
            assert forall|l: int| pos <= l < old_keys.len() implies key <= #[trigger] old_keys[l] by {
                if l > pos {
                    assert(old_keys[pos as int] < old_keys[l] || old_keys[pos as int]
                        == old_keys[l]);
                }
            }
        }
        keys.insert(pos, key);
        vals.insert(pos, val);
        proof {
            p = old_p.insert(pos as int, i);
            assert forall|k: int| 0 <= k < p.len() implies items@.len() <= #[trigger] p[k]
                < orig.len() && keys@[k] == orig[p[k]].0 && vals@[k] == orig[p[k]].1 by {
                if k < pos {
                    assert(p[k] == old_p[k]);
                } else if k > pos {
                    assert(p[k] == old_p[k - 1]);
                }
            }
            assert forall|k: int, l: int|
                #![trigger keys@[k], keys@[l]]
                0 <= k < l < p.len() implies keys@[k] < keys@[l] || (keys@[k] == keys@[l] && p[k]
                < p[l]) by {
                if k < pos && l < pos {
                    assert(p[k] == old_p[k] && p[l] == old_p[l]);
                    assert(keys@[k] == old_keys[k] && keys@[l] == old_keys[l]);
                } else if k < pos && l == pos {
                    assert(keys@[k] == old_keys[k]);
                } else if k < pos {
                    assert(keys@[k] == old_keys[k] && keys@[l] == old_keys[l - 1]);
                    assert(p[k] == old_p[k] && p[l] == old_p[l - 1]);
                } else if k == pos {
                    assert(p[l] == old_p[l - 1]);
                    assert(keys@[l] == old_keys[l - 1]);
                } else {
                    assert(p[k] == old_p[k - 1] && p[l] == old_p[l - 1]);
                    assert(keys@[k] == old_keys[k - 1] && keys@[l] == old_keys[l - 1]);
                }
            }
        }
    }
    proof {
        assert forall|k: int, l: int| 0 <= k < l < p.len() implies orig[#[trigger] p[k]].0 < orig[
            #[trigger] p[l]].0 || (orig[p[k]].0 == orig[p[l]].0 && p[k] < p[l]) by {
            assert(keys@[k] < keys@[l] || (keys@[k] == keys@[l] && p[k] < p[l]));
        }
        assert(ordered_by_index(orig, vals@, p));
    }
    vals
}

} // verus!
