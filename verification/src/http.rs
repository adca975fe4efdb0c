//! When a request is sent again, and after which wait.

use vstd::prelude::*;
use vstd::string::*;

use crate::domain::period::{number_text, parse_number};
use crate::error::{ErrorView, SiftError, concat2, concat5};
use crate::text::{
    chars_of, decimal, decimal_string, is_digit, is_space, law_white_space_around_is_trimmed,
    lemma_decimal_value, lemma_occurs_between, occurs, opt_str, trim, trim_chars,
};

verus! {

/// The largest body that is taken, in bytes.
pub const MAX_BODY_BYTES: usize = 16777216;

/// How many times a request is sent again.
pub const MAX_RETRIES: usize = 3;

/// A status that a later request may not meet again.
pub open spec fn is_retryable(code: u16) -> bool {
    code == 429 || code == 500 || code == 502 || code == 503 || code == 504
}

/// A response with which a request is sent again: it may pass, and the request
/// was not sent again too often yet.
pub open spec fn sends_again(code: u16, retries: nat) -> bool {
    is_retryable(code) && retries < MAX_RETRIES
}

/// A status of success.
pub open spec fn is_success(code: u16) -> bool {
    200 <= code < 300
}

/// The wait before a request is sent again, in seconds, when the server does
/// not give one: 1, 2 and 4.
pub open spec fn backoff(attempt: int) -> nat {
    if attempt == 0 {
        1
    } else if attempt == 1 {
        2
    } else {
        4
    }
}

/// The seconds that a `Retry-After` header gives, if it gives any.
pub open spec fn retry_after(header: Option<Seq<char>>) -> Option<nat> {
    match header {
        Some(h) => number_text(trim(h), u64::MAX as nat),
        None => None,
    }
}

/// The seconds that a `Retry-After` header gives, if it gives any.
pub fn retry_after_secs(header: Option<&str>) -> (r: Option<u64>)
    ensures
        match r {
            Some(n) => retry_after(opt_str(header)) == Some(n as nat),
            None => retry_after(opt_str(header)) is None,
        },
{
    match header {
        Some(h) => parse_number(&trim_chars(&chars_of(h)), u64::MAX),
        None => None,
    }
}

/// What is done after a request.
#[derive(Debug)]
pub enum HttpStep {
    /// The body is read.
    Read,
    /// The request is sent again, after so many seconds.
    Again(u64),
    Fail(SiftError),
}

/// A request on its way: how many times it was sent again so far.
#[derive(Debug)]
pub struct Attempts {
    retries: usize,
}

/// The error of a status.
pub open spec fn status_error(verb: Seq<char>, url: Seq<char>, code: u16) -> ErrorView {
    ErrorView::Network(verb + " "@ + url + " -> "@ + decimal(code as nat))
}

fn status_failure(verb: &str, url: &str, code: u16) -> (e: SiftError)
    ensures
        e@ == status_error(verb@, url@, code),
{
    SiftError::Network(
        concat5(verb, " ", url, " -> ", decimal_string(code as u64).as_str()),
    )
}

impl Attempts {
    /// How many times the request was sent again.
    pub closed spec fn count(self) -> nat {
        self.retries as nat
    }

    pub open spec fn wf(self) -> bool {
        self.count() <= MAX_RETRIES
    }

    /// Before the first request.
    pub fn new() -> (a: Attempts)
        ensures
            a.wf(),
            a.count() == 0,
    {
        Attempts { retries: 0 }
    }

    /// What is done after a response. Success is read; the five statuses that
    /// may pass are met with up to three more requests, after the wait that
    /// the server gives or the next of our own; everything else fails.
    pub fn on_status(&mut self, verb: &str, url: &str, code: u16, header: Option<&str>) -> (step:
        HttpStep)
        requires
            old(self).wf(),
        ensures
            final(self).wf(),
            if is_success(code) {
                step is Read && final(self).count() == old(self).count()
            } else if sends_again(code, old(self).count()) {
                &&& final(self).count() == old(self).count() + 1
                &&& step matches HttpStep::Again(wait) && wait == (match retry_after(
                    opt_str(header),
                ) {
                    Some(n) => n,
                    None => backoff(old(self).count() as int),
                })
            } else {
                &&& final(self).count() == old(self).count()
                &&& step matches HttpStep::Fail(e) && e@ == status_error(verb@, url@, code)
            },
            step is Read <==> 200 <= code <= 299,
            step is Again ==> code == 429 || 500 <= code <= 504,
    {
        if 200 <= code && code < 300 {
            return HttpStep::Read;
        }
        let retryable = code == 429 || code == 500 || code == 502 || code == 503 || code == 504;
        if retryable && self.retries < MAX_RETRIES {
            let own: u64 = if self.retries == 0 {
                1
            } else if self.retries == 1 {
                2
            } else {
                4
            };
            self.retries = self.retries + 1;
            return match retry_after_secs(header) {
                Some(n) => HttpStep::Again(n),
                None => HttpStep::Again(own),
            };
        }
        HttpStep::Fail(status_failure(verb, url, code))
    }

    /// What is done when there was no response at all.
    pub fn on_transport_error(&self, message: &str) -> (step: HttpStep)
        ensures
            step matches HttpStep::Fail(e) && e@ == ErrorView::Network(message@),
    {
        HttpStep::Fail(SiftError::Network(message.to_owned()))
    }
}

/// Whether a request is over after responses with the given statuses, sent
/// again `retries` times before them.
pub open spec fn is_over(codes: Seq<u16>, retries: nat) -> bool
    decreases codes.len(),
{
    if codes.len() == 0 {
        false
    } else if sends_again(codes[0], retries) {
        is_over(codes.drop_first(), retries + 1)
    } else {
        true
    }
}

/// No request takes more than four responses.
pub proof fn law_at_most_four_requests(codes: Seq<u16>)
    requires
        codes.len() >= 4,
    ensures
        is_over(codes, 0),
{
    reveal_with_fuel(is_over, 5);
}

/// A request that meets nothing but statuses that may pass is sent four times in
/// all: after fewer responses it is not over.
pub proof fn law_passing_statuses_are_met_three_times(codes: Seq<u16>, retries: nat)
    requires
        codes.len() + retries <= 3,
        forall|i: int|
            0 <= i < codes.len() ==> #[trigger] codes[i] == 429 || 500 <= codes[i] <= 504 && codes[i]
                != 501,
    ensures
        !is_over(codes, retries),
    decreases codes.len(),
{
    if codes.len() > 0 {
        let d = codes.drop_first();
        assert forall|i: int| 0 <= i < d.len() implies #[trigger] d[i] == 429 || 500 <= d[i] <= 504
            && d[i] != 501 by {
            assert(d[i] == codes[i + 1]);
        }
        assert(codes[0] == 429 || 500 <= codes[0] <= 504 && codes[0] != 501);
        law_passing_statuses_are_met_three_times(d, retries + 1);
    }
}

/// Only a server that is overloaded or failing is asked again: no success, no
/// redirection, no fault of the request itself but that it came too soon, and no
/// request that the server does not know how to meet.
pub proof fn law_only_passing_statuses_are_met_again(code: u16, retries: nat)
    requires
        sends_again(code, retries),
    ensures
        code == 429 || 500 <= code <= 504 && code != 501,
        !is_success(code),
        retries < 3,
{
}

/// The error of a status tells the kind of request, its address and the status.
pub proof fn law_a_status_error_tells_the_request(verb: Seq<char>, url: Seq<char>, code: u16)
    ensures
        status_error(verb, url, code) matches ErrorView::Network(text) && verb.is_prefix_of(text)
            && occurs(text, url) && decimal(code as nat).is_suffix_of(text),
{
    let text = verb + " "@ + url + " -> "@ + decimal(code as nat);
    let end = decimal(code as nat);
    lemma_occurs_between(verb + " "@, url, " -> "@ + end);
    assert(verb + " "@ + url + (" -> "@ + end) =~= text);
    assert(text.subrange(0, verb.len() as int) =~= verb);
    assert(text.subrange(text.len() - end.len(), text.len() as int) =~= end);
}

/// The statuses of success are the two hundreds.
pub proof fn law_two_hundreds_are_success(code: u16)
    ensures
        is_success(code) <==> code / 100 == 2,
{
}

/// The seconds that a server gives count whatever white space stands round them;
/// a text that is no number gives none, nor does no header at all.
pub proof fn law_the_wait_of_the_server_is_read(a: Seq<char>, n: nat, b: Seq<char>)
    requires
        forall|i: int| 0 <= i < a.len() ==> is_space(#[trigger] a[i]),
        forall|i: int| 0 <= i < b.len() ==> is_space(#[trigger] b[i]),
    ensures
        n <= u64::MAX ==> retry_after(Some(a + decimal(n) + b)) == Some(n),
        n > u64::MAX ==> retry_after(Some(a + decimal(n) + b)) is None,
        retry_after(Some(a)) is None,
        retry_after(None) is None,
{
    let none = Seq::<char>::empty();
    lemma_decimal_value(n);
    let s = decimal(n);
    assert(is_digit(s[0]) && is_digit(s.last()));
    law_white_space_around_is_trimmed(a, s, b);
    law_white_space_around_is_trimmed(a, none, none);
    assert(a + none + none =~= a);
}

/// The first wait is a second, and each that follows is twice as long.
pub proof fn law_waits_double(attempt: int)
    requires
        0 <= attempt < 2,
    ensures
        backoff(0) == 1,
        backoff(attempt + 1) == 2 * backoff(attempt),
{
}

/// A body, if it is not too large.
pub fn check_body(body: Vec<u8>) -> (r: Result<Vec<u8>, SiftError>)
    ensures
        if body@.len() > MAX_BODY_BYTES {
            r matches Err(e) && e@ == ErrorView::Network(
                "response body exceeds 16777216 bytes"@,
            )
        } else {
            r == Ok::<Vec<u8>, SiftError>(body)
        },
        r is Ok <==> body@.len() <= 16 * 1024 * 1024,
{
    if body.len() > MAX_BODY_BYTES {
        Err(SiftError::Network("response body exceeds 16777216 bytes".to_owned()))
    } else {
        Ok(body)
    }
}

/// The error of a body that cannot be read.
pub fn body_error(message: &str) -> (e: SiftError)
    ensures
        e@ == ErrorView::Network("body read: "@ + message@),
{
    SiftError::Network(concat2("body read: ", message))
}

} // verus!
