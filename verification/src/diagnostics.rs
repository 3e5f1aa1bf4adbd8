//! Requests for diagnostics and the answers to them.
//!
//! `tool4d` may answer a `textDocument/diagnostic` request with a `null`
//! result, which the protocol does not allow. The relay remembers which
//! requests ask for diagnostics, and puts an empty report in the place of the
//! `null` in the answer to one of them.
use vstd::prelude::*;

use crate::json;
use crate::json::{Json, JsonValue, NewValue};
use crate::text;

verus! {

/// The identifier of a request: a number and a string are never the same.
pub enum Id {
    Number(Seq<char>),
    Text(Seq<char>),
}

/// The identifier of a request.
#[derive(Debug)]
pub enum RequestId {
    Number(String),
    String(String),
}

impl View for RequestId {
    type V = Id;

    open spec fn view(&self) -> Id {
        match self {
            RequestId::Number(number) => Id::Number(number@),
            RequestId::String(string) => Id::Text(string@),
        }
    }
}

/// The member of an object with the given key.
pub open spec fn member(message: Option<Json>, key: Seq<char>) -> Option<Json> {
    match message {
        Some(Json::Object(members)) => if members.contains_key(key) {
            Some(members[key])
        } else {
            None
        },
        _ => None,
    }
}

/// The identifier that a member stands for; numbers and strings are
/// identifiers, and nothing else is.
pub open spec fn id_of(value: Option<Json>) -> Option<Id> {
    match value {
        Some(Json::Number(number)) => Some(Id::Number(number)),
        Some(Json::Text(string)) => Some(Id::Text(string)),
        _ => None,
    }
}

/// The identifier of a request for diagnostics; `None` for any other message,
/// and for a notification, which has no identifier.
pub open spec fn diagnostic_request(message: Option<Json>) -> Option<Id> {
    if member(message, "method"@) == Some(Json::Text("textDocument/diagnostic"@)) {
        id_of(member(message, "id"@))
    } else {
        None
    }
}

/// The message asks for something or tells something: it names a method, and
/// has neither a result nor an error.
pub open spec fn is_request(message: Option<Json>) -> bool {
    &&& member(message, "method"@) matches Some(method) && method is Text
    &&& member(message, "result"@) is None
    &&& member(message, "error"@) is None
}

/// The identifier of the request that a message answers; a request answers
/// nothing.
pub open spec fn answered(message: Option<Json>) -> Option<Id> {
    if is_request(message) {
        None
    } else {
        id_of(member(message, "id"@))
    }
}

/// The message has a `null` result and reports no error.
pub open spec fn is_null_answer(message: Option<Json>) -> bool {
    member(message, "error"@) is None && member(message, "result"@) == Some(Json::Null)
}

/// A full diagnostic report without diagnostics.
pub open spec fn empty_report() -> Json {
    Json::Object(
        Map::<Seq<char>, Json>::empty().insert("kind"@, Json::Text("full"@)).insert(
            "items"@,
            Json::Array(Seq::empty()),
        ),
    )
}

/// The members of an answer with an empty report for its result.
pub open spec fn repaired(message: Option<Json>) -> Map<Seq<char>, Json> {
    match message {
        Some(Json::Object(members)) => members.insert("result"@, empty_report()),
        _ => Map::empty(),
    }
}

/// The requests for diagnostics that wait for an answer once the editor has
/// sent `body`.
pub open spec fn remembered(body: Seq<u8>, pending: Set<Id>) -> Set<Id> {
    match diagnostic_request(json::json_of_text(body)) {
        Some(id) => pending.insert(id),
        None => pending,
    }
}

/// `body` is the answer to a request that waits for one.
pub open spec fn is_awaited(body: Seq<u8>, pending: Set<Id>) -> bool {
    match answered(json::json_of_text(body)) {
        Some(id) => pending.contains(id),
        None => false,
    }
}

/// The requests that still wait for an answer once `tool4d` has sent `body`:
/// any answer ends the wait for it.
pub open spec fn still_pending(body: Seq<u8>, pending: Set<Id>) -> Set<Id> {
    match answered(json::json_of_text(body)) {
        Some(id) => pending.remove(id),
        None => pending,
    }
}

/// What the editor is sent for the body `body` of a message from `tool4d`.
pub open spec fn rewritten(body: Seq<u8>, pending: Set<Id>) -> Seq<u8> {
    if is_awaited(body, pending) && is_null_answer(json::json_of_text(body)) {
        json::text_of_object(repaired(json::json_of_text(body)))
    } else {
        body
    }
}

/// Which requests are remembered: those whose method is
/// `textDocument/diagnostic` and whose identifier is a number or a string,
/// whatever number or string, under that identifier; and no other message.
pub proof fn every_request_for_diagnostics_is_remembered(
    body: Seq<u8>,
    members: Map<Seq<char>, Json>,
    pending: Set<Id>,
)
    requires
        json::json_of_text(body) == Some(Json::Object(members)),
    ensures
        ({
            let asks = members.contains_key("method"@) && members["method"@] == Json::Text(
                "textDocument/diagnostic"@,
            ) && members.contains_key("id"@);
            &&& asks && members["id"@] is Number ==> remembered(body, pending) == pending.insert(
                Id::Number(members["id"@]->Number_0),
            )
            &&& asks && members["id"@] is Text ==> remembered(body, pending) == pending.insert(
                Id::Text(members["id"@]->Text_0),
            )
            &&& !(asks && (members["id"@] is Number || members["id"@] is Text)) ==> remembered(
                body,
                pending,
            ) == pending
        }),
{
}

/// What an answer does, by its members: any message with a number or a string
/// for its identifier ends the wait for that identifier, but for a request; and
/// where there was a wait, a `null` result without an error is replaced by a
/// full report without items, with all other members as they were.
pub proof fn answers_are_told_by_their_members(
    body: Seq<u8>,
    members: Map<Seq<char>, Json>,
    pending: Set<Id>,
    id: Id,
)
    requires
        json::json_of_text(body) == Some(Json::Object(members)),
    ensures
        ({
            let asks = members.contains_key("method"@) && members["method"@] is Text
                && !members.contains_key("result"@) && !members.contains_key("error"@);
            let names_id = members.contains_key("id"@) && match id {
                Id::Number(number) => members["id"@] == Json::Number(number),
                Id::Text(string) => members["id"@] == Json::Text(string),
            };
            let is_null = members.contains_key("result"@) && members["result"@] == Json::Null
                && !members.contains_key("error"@);
            let report = Json::Object(
                map!["items"@ => Json::Array(Seq::empty()), "kind"@ => Json::Text("full"@)],
            );
            let without_id = !members.contains_key("id"@) || !(members["id"@] is Number
                || members["id"@] is Text);
            &&& !asks && names_id ==> still_pending(body, pending) == pending.remove(id)
            &&& !asks && names_id && is_null && pending.contains(id) ==> rewritten(body, pending)
                == json::text_of_object(members.insert("result"@, report))
            &&& names_id && !(is_null && pending.contains(id)) ==> rewritten(body, pending) == body
            &&& asks || without_id ==> still_pending(body, pending) == pending && rewritten(
                body,
                pending,
            ) == body
        }),
{
    let report = map!["items"@ => Json::Array(Seq::empty()), "kind"@ => Json::Text("full"@)];
    reveal_strlit("items");
    reveal_strlit("kind");
    assert("items"@.len() != "kind"@.len());
    assert(empty_report()->Object_0 =~= report);
}

/// A text that is no JSON object is neither remembered nor changed.
pub proof fn only_objects_are_looked_at(body: Seq<u8>, pending: Set<Id>)
    requires
        json::json_of_text(body) matches Some(json) ==> !(json is Object),
    ensures
        remembered(body, pending) == pending,
        still_pending(body, pending) == pending,
        rewritten(body, pending) == body,
{
}

/// Two identifiers are the same where both are numbers or both are strings,
/// with the same characters.
pub proof fn identifiers_are_told_apart(a: RequestId, b: RequestId)
    ensures
        a@ == b@ <==> match (a, b) {
            (RequestId::Number(a), RequestId::Number(b)) => a@ == b@,
            (RequestId::String(a), RequestId::String(b)) => a@ == b@,
            _ => false,
        },
        a matches RequestId::Number(number) ==> a@ == Id::Number(number@),
        a matches RequestId::String(string) ==> a@ == Id::Text(string@),
{
}

/// The editor's request for diagnostics is answered by an empty report where
/// `tool4d` answers it by `null`.
pub proof fn null_answer_to_a_diagnostic_request_is_repaired(
    request: Seq<u8>,
    answer: Seq<u8>,
    pending: Set<Id>,
)
    requires
        diagnostic_request(json::json_of_text(request)) is Some,
        answered(json::json_of_text(answer)) == diagnostic_request(json::json_of_text(request)),
        is_null_answer(json::json_of_text(answer)),
    ensures
        rewritten(answer, remembered(request, pending)) == json::text_of_object(
            repaired(json::json_of_text(answer)),
        ),
        member(
            Some(Json::Object(repaired(json::json_of_text(answer)))),
            "result"@,
        ) == Some(empty_report()),
        forall|key: Seq<char>|
            key != "result"@ ==> #[trigger] member(
                Some(Json::Object(repaired(json::json_of_text(answer)))),
                key,
            ) == member(json::json_of_text(answer), key),
{
}

/// A message that answers no pending request is passed on as it is.
pub proof fn other_answers_are_unchanged(answer: Seq<u8>, pending: Set<Id>)
    requires
        !is_awaited(answer, pending),
    ensures
        rewritten(answer, pending) == answer,
        still_pending(answer, pending) == pending,
{
    if let Some(id) = answered(json::json_of_text(answer)) {
        assert(pending.remove(id) =~= pending);
    }
}

/// An answer that reports an error, or whose result is not `null`, is passed
/// on as it is, and ends the wait for an answer all the same.
pub proof fn valid_answers_are_unchanged(answer: Seq<u8>, pending: Set<Id>)
    requires
        is_awaited(answer, pending),
        member(json::json_of_text(answer), "error"@) is Some || member(
            json::json_of_text(answer),
            "result"@,
        ) != Some(Json::Null),
    ensures
        rewritten(answer, pending) == answer,
        !still_pending(answer, pending).contains(answered(json::json_of_text(answer))->Some_0),
{
}

/// A second answer to the same request is passed on as it is.
pub proof fn repeated_answers_are_unchanged(first: Seq<u8>, second: Seq<u8>, pending: Set<Id>)
    requires
        answered(json::json_of_text(first)) is Some,
        answered(json::json_of_text(second)) == answered(json::json_of_text(first)),
    ensures
        rewritten(second, still_pending(first, pending)) == second,
{
}

/// Answers may come in any order: one leaves the wait for all others alone.
pub proof fn answers_are_independent(answer: Seq<u8>, pending: Set<Id>, id: Id)
    requires
        answered(json::json_of_text(answer)) != Some(id),
    ensures
        still_pending(answer, pending).contains(id) == pending.contains(id),
{
}

/// A request that `tool4d` makes itself is passed on as it is, and ends no
/// wait, though it may have the identifier of a request of the editor.
pub proof fn requests_of_tool4d_are_unchanged(body: Seq<u8>, pending: Set<Id>)
    requires
        is_request(json::json_of_text(body)),
    ensures
        rewritten(body, pending) == body,
        still_pending(body, pending) == pending,
{
}

/// Neither a notification nor a text that is no JSON object changes what is
/// waited for or is changed itself.
pub proof fn messages_without_id_are_unchanged(body: Seq<u8>, pending: Set<Id>)
    requires
        id_of(member(json::json_of_text(body), "id"@)) is None,
    ensures
        remembered(body, pending) == pending,
        rewritten(body, pending) == body,
        still_pending(body, pending) == pending,
{
}

impl RequestId {
    /// The identifier that a member stands for.
    pub fn from_json(value: &JsonValue) -> (id: Option<RequestId>)
        ensures
            match value {
                JsonValue::Number(number) => id is Some && id->Some_0@ == Id::Number(number@),
                JsonValue::Text(string) => id is Some && id->Some_0@ == Id::Text(string@),
                _ => id is None,
            },
    {
        match value {
            JsonValue::Number(number) => Some(RequestId::Number(number.clone())),
            JsonValue::Text(string) => Some(RequestId::String(string.clone())),
            _ => None,
        }
    }

    /// Whether two identifiers are the same.
    pub fn same(&self, other: &RequestId) -> (same: bool)
        ensures
            same == (self@ == other@),
    {
        match (self, other) {
            (RequestId::Number(a), RequestId::Number(b)) => *a == *b,
            (RequestId::String(a), RequestId::String(b)) => *a == *b,
            _ => false,
        }
    }
}

/// The identifier to remember for a message with the given `method` and `id`.
pub fn diagnostic_request_id(method: Option<JsonValue>, id: Option<JsonValue>) -> (request: Option<
    RequestId,
>)
    ensures
        match (method, id) {
            (Some(JsonValue::Text(name)), Some(JsonValue::Number(number))) => if name@
                == "textDocument/diagnostic"@ {
                request is Some && request->Some_0@ == Id::Number(number@)
            } else {
                request is None
            },
            (Some(JsonValue::Text(name)), Some(JsonValue::Text(string))) => if name@
                == "textDocument/diagnostic"@ {
                request is Some && request->Some_0@ == Id::Text(string@)
            } else {
                request is None
            },
            _ => request is None,
        },
{
    match method {
        Some(JsonValue::Text(name)) => {
            if !text::same_text(name.as_str(), "textDocument/diagnostic") {
                return None;
            }
        },
        _ => return None,
    }
    match id {
        Some(value) => RequestId::from_json(&value),
        None => None,
    }
}

/// The identifier of the request that a message with the given members
/// answers.
pub fn answered_request_id(
    method: &Option<JsonValue>,
    id: &Option<JsonValue>,
    error: &Option<JsonValue>,
    result: &Option<JsonValue>,
) -> (request: Option<RequestId>)
    ensures
        if (*method matches Some(name) && name is Text) && *error is None && *result is None {
            request is None
        } else {
            match *id {
                Some(JsonValue::Number(number)) => request is Some && request->Some_0@
                    == Id::Number(number@),
                Some(JsonValue::Text(string)) => request is Some && request->Some_0@ == Id::Text(
                    string@,
                ),
                _ => request is None,
            }
        },
{
    if error.is_none() && result.is_none() {
        if let Some(JsonValue::Text(_)) = method {
            return None;
        }
    }
    match id {
        Some(value) => RequestId::from_json(value),
        None => None,
    }
}

/// Whether a message with the given `error` and `result` is an answer that
/// must be repaired.
pub fn needs_empty_report(error: &Option<JsonValue>, result: &Option<JsonValue>) -> (needed: bool)
    ensures
        needed == (*error is None && (*result matches Some(value) && value is Null)),
{
    if error.is_some() {
        return false;
    }
    match result {
        Some(JsonValue::Null) => true,
        _ => false,
    }
}

/// The requests for diagnostics that wait for an answer, which both directions
/// of a session share.
#[derive(Debug)]
pub struct CompatibilityState {
    pending_diagnostic_requests: Vec<RequestId>,
}

/// The identifiers of several requests.
pub open spec fn ids(requests: Seq<RequestId>) -> Seq<Id> {
    Seq::new(requests.len(), |i: int| requests[i]@)
}

impl View for CompatibilityState {
    type V = Set<Id>;

    closed spec fn view(&self) -> Set<Id> {
        ids(self.pending_diagnostic_requests@).to_set()
    }
}

impl Default for CompatibilityState {
    /// No request waits for an answer.
    fn default() -> (state: CompatibilityState)
        ensures
            state.wf(),
            state@ == Set::<Id>::empty(),
    {
        let state = CompatibilityState { pending_diagnostic_requests: Vec::new() };
        assert(state@ =~= Set::<Id>::empty());
        state
    }
}

impl CompatibilityState {
    /// No request is held twice.
    pub closed spec fn wf(&self) -> bool {
        ids(self.pending_diagnostic_requests@).no_duplicates()
    }

    /// The position of a request that waits for an answer.
    fn position(&self, id: &RequestId) -> (position: Option<usize>)
        ensures
            match position {
                Some(i) => i < self.pending_diagnostic_requests@.len() && ids(
                    self.pending_diagnostic_requests@,
                )[i as int] == id@,
                None => !self@.contains(id@),
            },
    {
        let mut i: usize = 0;
        while i < self.pending_diagnostic_requests.len()
            invariant
                i <= self.pending_diagnostic_requests.len(),
                forall|j: int|
                    0 <= j < i ==> ids(self.pending_diagnostic_requests@)[j] != id@,
            decreases self.pending_diagnostic_requests.len() - i,
        {
            if self.pending_diagnostic_requests[i].same(id) {
                return Some(i);
            }
            i = i + 1;
        }
        None
    }

    /// Remembers that a request waits for an answer.
    pub fn insert(&mut self, id: RequestId)
        requires
            old(self).wf(),
        ensures
            final(self).wf(),
            final(self)@ == old(self)@.insert(id@),
    {
        let ghost before = ids(self.pending_diagnostic_requests@);
        match self.position(&id) {
            Some(i) => {
                assert(before.contains(before[i as int]));
                assert(self@ =~= old(self)@.insert(id@));
            },
            None => {
                let ghost added = id@;
                self.pending_diagnostic_requests.push(id);
                proof {
                    let after = ids(self.pending_diagnostic_requests@);
                    assert(after =~= before.push(added));
                    assert forall|x: Id| after.to_set().contains(x) == before.to_set().insert(
                        added,
                    ).contains(x) by {
                        if before.contains(x) {
                            let j = choose|j: int| 0 <= j < before.len() && before[j] == x;
                            assert(after[j] == x);
                        }
                        if x == added {
                            assert(after[before.len() as int] == x);
                        }
                        if after.contains(x) {
                            let j = choose|j: int| 0 <= j < after.len() && after[j] == x;
                            if j < before.len() {
                                assert(before[j] == x);
                            }
                        }
                    }
                    assert(self@ =~= old(self)@.insert(added));
                    assert(!before.contains(added));
                    assert(after.no_duplicates()) by {
                        assert forall|a: int, b: int|
                            0 <= a < after.len() && 0 <= b < after.len() && a != b implies after[a]
                            != after[b] by {
                            if a < before.len() && b < before.len() {
                                assert(before[a] != before[b]);
                            } else if a < before.len() {
                                assert(before.contains(before[a]));
                            } else {
                                assert(before.contains(before[b]));
                            }
                        }
                    }
                }
            },
        }
    }

    /// Forgets a request, and says whether it waited for an answer.
    pub fn remove(&mut self, id: &RequestId) -> (removed: bool)
        requires
            old(self).wf(),
        ensures
            final(self).wf(),
            removed == old(self)@.contains(id@),
            final(self)@ == old(self)@.remove(id@),
    {
        let ghost before = ids(self.pending_diagnostic_requests@);
        match self.position(id) {
            None => {
                assert(self@ =~= old(self)@.remove(id@));
                false
            },
            Some(i) => {
                let _forgotten = self.pending_diagnostic_requests.swap_remove(i);
                proof {
                    let after = ids(self.pending_diagnostic_requests@);
                    let last = before.len() - 1;
                    assert(before.contains(before[i as int]));
                    assert(after.len() == last);
                    assert forall|j: int| 0 <= j < last implies after[j] == (if j == i {
                        before[last]
                    } else {
                        before[j]
                    }) by {}
                    assert forall|x: Id| after.to_set().contains(x) == before.to_set().remove(
                        id@,
                    ).contains(x) by {
                        if before.contains(x) && x != id@ {
                            let j = choose|j: int| 0 <= j < before.len() && before[j] == x;
                            if j == last {
                                assert(after[i as int] == x);
                            } else {
                                assert(after[j] == x);
                            }
                        }
                        if after.contains(x) {
                            let j = choose|j: int| 0 <= j < after.len() && after[j] == x;
                            if j == i {
                                assert(before[last] == x);
                            } else {
                                assert(before[j] == x);
                            }
                        }
                    }
                    assert(self@ =~= old(self)@.remove(id@));
                    assert(after.no_duplicates());
                }
                true
            },
        }
    }
}

/// Remembers the request for diagnostics that the editor makes with `body`, if
/// it makes one.
pub fn remember_diagnostic_request(body: &[u8], state: &mut CompatibilityState)
    requires
        old(state).wf(),
    ensures
        final(state).wf(),
        final(state)@ == remembered(body@, old(state)@),
{
    let message = match json::parse_object(body) {
        Some(message) => message,
        None => return,
    };
    let method = json::get_member(&message, "method");
    let id = json::get_member(&message, "id");
    if let Some(request) = diagnostic_request_id(method, id) {
        state.insert(request);
    }
}

/// The empty report as a value for an answer.
fn empty_report_value() -> (report: NewValue)
    ensures
        report.json() == empty_report(),
{
    let mut report = json::new_object();
    json::insert_member(&mut report, "kind".to_owned(), NewValue::Text("full".to_owned()));
    json::insert_member(&mut report, "items".to_owned(), NewValue::EmptyArray);
    assert(json::members(report) =~= empty_report()->Object_0);
    NewValue::Object(report)
}

/// An empty report is nested two levels deep and holds no number.
proof fn lemma_empty_report(depth: nat)
    requires
        depth >= 2,
    ensures
        json::nested_within(empty_report(), depth),
        json::integral_within(empty_report(), depth),
{
    let members = empty_report()->Object_0;
    assert forall|key: Seq<char>| #[trigger] members.contains_key(key) implies json::nested_within(
        members[key],
        (depth - 1) as nat,
    ) && json::integral_within(members[key], (depth - 1) as nat) by {
        if key != "items"@ {
            assert(key == "kind"@);
        }
    }
}

/// Replaces the `null` result of an answer to a request for diagnostics by an
/// empty report; leaves any other message as it is.
pub fn rewrite_null_diagnostic_response(body: &mut Vec<u8>, state: &mut CompatibilityState)
    requires
        old(state).wf(),
    ensures
        final(state).wf(),
        final(state)@ == still_pending(old(body)@, old(state)@),
        final(body)@ == rewritten(old(body)@, old(state)@),
        is_awaited(old(body)@, old(state)@) && is_null_answer(json::json_of_text(old(body)@))
            && json::integral_within(json::json_of_text(old(body)@)->Some_0, 127)
            ==> json::json_of_text(final(body)@) == Some(
            Json::Object(repaired(json::json_of_text(old(body)@))),
        ),
{
    let mut message = match json::parse_object(body.as_slice()) {
        Some(message) => message,
        None => return,
    };
    let ghost parsed = json::members(message);
    let method = json::get_member(&message, "method");
    let member = json::get_member(&message, "id");
    let error = json::get_member(&message, "error");
    let result = json::get_member(&message, "result");
    let id = match answered_request_id(&method, &member, &error, &result) {
        Some(id) => id,
        None => return,
    };
    if !state.remove(&id) {
        return;
    }
    if !needs_empty_report(&error, &result) {
        return;
    }
    json::insert_member(&mut message, "result".to_owned(), empty_report_value());
    proof {
        let members = json::members(message);
        assert(members =~= repaired(json::json_of_text(old(body)@)));
        lemma_empty_report(126);
        assert forall|key: Seq<char>| #[trigger]
            members.contains_key(key) implies json::nested_within(members[key], 126) by {
            if key != "result"@ {
                assert(parsed.contains_key(key));
            }
        }
        if json::integral_within(Json::Object(parsed), 127) {
            assert forall|key: Seq<char>| #[trigger]
                members.contains_key(key) implies json::integral_within(members[key], 126) by {
                if key != "result"@ {
                    assert(parsed.contains_key(key));
                }
            }
        }
    }
    if let Ok(text) = json::object_text(&message) {
        *body = text;
    }
}

} // verus!
