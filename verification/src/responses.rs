//! The answers of the service: which request gets which, and what each consists of.
use crate::calendar;
use crate::index::IvfIndex;
use crate::parse;
use crate::parse::Transaction;
use crate::search;
use crate::vectorize;
use crate::vectorize::{Measures, Tables};
use vstd::prelude::*;
use vstd::string::*;

verus! {

/// The bodies for the six possible numbers of fraudulent neighbours.
pub const RESPONSE_BODIES: [&'static str; 6] = [
    "{\"approved\":true,\"fraud_score\":0.0}",
    "{\"approved\":true,\"fraud_score\":0.2}",
    "{\"approved\":true,\"fraud_score\":0.4}",
    "{\"approved\":false,\"fraud_score\":0.6}",
    "{\"approved\":false,\"fraud_score\":0.8}",
    "{\"approved\":false,\"fraud_score\":1.0}",
];

/// The lengths of the bodies, as a header writes them.
pub const RESPONSE_CONTENT_LENGTHS: [&'static str; 6] = ["35", "35", "35", "36", "36", "36"];

/// The number of fraudulent neighbours from which on a transaction is refused.
pub const REFUSAL_COUNT: u8 = 3;

/// What a request asks for.
#[derive(Clone, Copy, Debug, PartialEq, Eq, Structural)]
pub enum Route {
    Ready,
    FraudScore,
    NotFound,
}

/// An answer: its status, the headers that vary, and its body.
pub struct Reply {
    pub status: u16,
    pub content_type: Option<&'static str>,
    pub content_length: &'static str,
    pub keep_alive: bool,
    pub body: &'static str,
}

/// The number that decimal digits write.
pub open spec fn decimal(digits: Seq<char>) -> int
    decreases digits.len(),
{
    if digits.len() == 0 {
        0
    } else {
        10 * decimal(digits.drop_last()) + (digits.last() as int - '0' as int)
    }
}

impl Reply {
    /// The header gives the length of the body in bytes.
    pub open spec fn length_is_right(self) -> bool {
        decimal(self.content_length@) == self.body.spec_bytes().len()
    }
}

/// Which answer stands for a number of fraudulent neighbours.
pub open spec fn reply_index(fraud_count: int) -> int {
    if fraud_count < 5 {
        fraud_count
    } else {
        5
    }
}

/// The answer with the score for a number of fraudulent neighbours.
pub open spec fn is_score_reply(reply: Reply, fraud_count: int) -> bool {
    &&& reply.status == 200
    &&& reply.content_type == Some("application/json")
    &&& reply.content_length == RESPONSE_CONTENT_LENGTHS[reply_index(fraud_count)]
    &&& reply.keep_alive
    &&& reply.body == RESPONSE_BODIES[reply_index(fraud_count)]
}

/// The given length of each body is its length.
pub proof fn lemma_content_lengths(i: int)
    requires
        0 <= i < 6,
    ensures
        decimal(RESPONSE_CONTENT_LENGTHS[i]@) == RESPONSE_BODIES[i].spec_bytes().len(),
{
    reveal_with_fuel(decimal, 3);
    reveal_strlit("35");
    reveal_strlit("36");
    reveal_strlit("{\"approved\":true,\"fraud_score\":0.0}");
    reveal_strlit("{\"approved\":true,\"fraud_score\":0.2}");
    reveal_strlit("{\"approved\":true,\"fraud_score\":0.4}");
    reveal_strlit("{\"approved\":false,\"fraud_score\":0.6}");
    reveal_strlit("{\"approved\":false,\"fraud_score\":0.8}");
    reveal_strlit("{\"approved\":false,\"fraud_score\":1.0}");
    is_ascii_spec_bytes(RESPONSE_BODIES[i]);
}

/// A body approves the transaction exactly where fewer neighbours are fraudulent than a
/// refusal takes.
pub proof fn lemma_bodies_approve(i: int)
    requires
        0 <= i < 6,
    ensures
        search::occurs_at(RESPONSE_BODIES[i].spec_bytes(), "{\"approved\":true,".spec_bytes(), 0)
            <==> i < REFUSAL_COUNT,
        search::occurs_at(RESPONSE_BODIES[i].spec_bytes(), "{\"approved\":false,".spec_bytes(), 0)
            <==> i >= REFUSAL_COUNT,
{
    reveal_strlit("{\"approved\":true,");
    reveal_strlit("{\"approved\":false,");
    reveal_strlit("{\"approved\":true,\"fraud_score\":0.0}");
    reveal_strlit("{\"approved\":true,\"fraud_score\":0.2}");
    reveal_strlit("{\"approved\":true,\"fraud_score\":0.4}");
    reveal_strlit("{\"approved\":false,\"fraud_score\":0.6}");
    reveal_strlit("{\"approved\":false,\"fraud_score\":0.8}");
    reveal_strlit("{\"approved\":false,\"fraud_score\":1.0}");
    is_ascii_spec_bytes("{\"approved\":true,");
    is_ascii_spec_bytes("{\"approved\":false,");
    is_ascii_spec_bytes(RESPONSE_BODIES[i]);
    let body = RESPONSE_BODIES[i].spec_bytes();
    let yes = "{\"approved\":true,".spec_bytes();
    let no = "{\"approved\":false,".spec_bytes();
    if i < REFUSAL_COUNT {
        assert(body.subrange(0, yes.len() as int) =~= yes);
        assert(body.subrange(0, no.len() as int)[12] != no[12]);
    } else {
        assert(body.subrange(0, no.len() as int) =~= no);
        assert(body.subrange(0, yes.len() as int)[12] != yes[12]);
    }
}

/// What a score reply says: status 200, JSON, a connection that stays, and a body whose score
/// is the share of the neighbours that are frauds, in two decimal digits, and which approves
/// with fewer than three. More than five count as five.
pub proof fn lemma_what_a_score_says(reply: Reply, fraud_count: int)
    requires
        is_score_reply(reply, fraud_count),
        fraud_count >= 0,
    ensures
        reply.status == 200,
        reply.content_type == Some("application/json"),
        reply.keep_alive,
        ({
            let b = reply.body.spec_bytes();
            let n = if fraud_count < 5 {
                fraud_count
            } else {
                5
            };
            let end = b.len() as int;
            &&& end == if n < 3 { 35int } else { 36 }
            &&& 5 * (10 * (b[end - 4] - 48) + (b[end - 2] - 48)) == 10 * n
            &&& b[end - 3] == 46 && b[end - 1] == 125
            &&& search::occurs_at(b, "{\"approved\":true,\"fraud_score\":".spec_bytes(), 0) <==> n
                < 3
            &&& search::occurs_at(b, "{\"approved\":false,\"fraud_score\":".spec_bytes(), 0) <==> n
                >= 3
        }),
        reply.content_length == if fraud_count < 3 {
            "35"
        } else {
            "36"
        },
{
    let n = if fraud_count < 5 {
        fraud_count
    } else {
        5
    };
    let b = RESPONSE_BODIES[n].spec_bytes();
    let yes = "{\"approved\":true,\"fraud_score\":".spec_bytes();
    let no = "{\"approved\":false,\"fraud_score\":".spec_bytes();
    reveal_strlit("{\"approved\":true,\"fraud_score\":");
    reveal_strlit("{\"approved\":false,\"fraud_score\":");
    reveal_strlit("{\"approved\":true,\"fraud_score\":0.0}");
    reveal_strlit("{\"approved\":true,\"fraud_score\":0.2}");
    reveal_strlit("{\"approved\":true,\"fraud_score\":0.4}");
    reveal_strlit("{\"approved\":false,\"fraud_score\":0.6}");
    reveal_strlit("{\"approved\":false,\"fraud_score\":0.8}");
    reveal_strlit("{\"approved\":false,\"fraud_score\":1.0}");
    is_ascii_spec_bytes("{\"approved\":true,\"fraud_score\":");
    is_ascii_spec_bytes("{\"approved\":false,\"fraud_score\":");
    is_ascii_spec_bytes(RESPONSE_BODIES[n]);
    if n < 3 {
        assert(b.subrange(0, yes.len() as int) =~= yes);
        assert(b.subrange(0, no.len() as int)[12] != no[12]);
    } else {
        assert(b.subrange(0, no.len() as int) =~= no);
        assert(b.subrange(0, yes.len() as int)[12] != yes[12]);
    }
}

/// Decimal digits count by tens, the last by ones.
pub proof fn lemma_decimal(digits: Seq<char>, last: char)
    ensures
        decimal(Seq::empty()) == 0,
        decimal(digits.push(last)) == 10 * decimal(digits) + (last as int - 48),
{
    assert(digits.push(last).drop_last() =~= digits);
}

/// What a request with this method and path asks for.
pub fn route(method: &[u8], path: &[u8]) -> (r: Route)
    ensures
        r == Route::Ready <==> method@ == "GET".spec_bytes() && path@ == "/ready".spec_bytes(),
        r == Route::FraudScore <==> method@ == "POST".spec_bytes() && path@
            == "/fraud-score".spec_bytes(),
{
    proof {
        reveal_strlit("GET");
        reveal_strlit("POST");
        is_ascii_spec_bytes("GET");
        is_ascii_spec_bytes("POST");
    }
    if search::same_bytes(method, "GET".as_bytes()) && search::same_bytes(
        path,
        "/ready".as_bytes(),
    ) {
        Route::Ready
    } else if search::same_bytes(method, "POST".as_bytes()) && search::same_bytes(
        path,
        "/fraud-score".as_bytes(),
    ) {
        Route::FraudScore
    } else {
        Route::NotFound
    }
}

/// Tells whether a transaction with this number of fraudulent neighbours is approved.
pub fn approves(fraud_count: u8) -> (r: bool)
    ensures
        r == (fraud_count < REFUSAL_COUNT),
        r == (fraud_count < 3),
{
    fraud_count < REFUSAL_COUNT
}

/// Tells whether the error of a connection with this text is worth a report: one that only
/// says that the peer went away is not.
pub fn is_reported(text: &[u8]) -> (r: bool)
    ensures
        r == !(search::contains(text@, "closed".spec_bytes()) || search::contains(
            text@,
            "reset".spec_bytes(),
        )),
{
    !parse::slice_contains(text, "closed".as_bytes()) && !parse::slice_contains(
        text,
        "reset".as_bytes(),
    )
}

/// The answer with the score for a number of fraudulent neighbours.
pub fn score_resp(fraud_count: u8) -> (reply: Reply)
    ensures
        is_score_reply(reply, fraud_count as int),
        reply.length_is_right(),
{
    let idx: usize = if fraud_count < 5 {
        fraud_count as usize
    } else {
        5
    };
    proof {
        lemma_content_lengths(idx as int);
    }
    Reply {
        status: 200,
        content_type: Some("application/json"),
        content_length: RESPONSE_CONTENT_LENGTHS[idx],
        keep_alive: true,
        body: RESPONSE_BODIES[idx],
    }
}

/// The answer to a request for a score, of which `query` is the vector. A request that could
/// not be read is approved with a score of zero.
pub fn fraud_score_handler(index: &IvfIndex, query: Result<[i16; 16], ()>, nprobe: usize) -> (reply:
    Reply)
    requires
        query matches Ok(q) ==> index@.answers(q@, nprobe as int),
    ensures
        is_score_reply(
            reply,
            match query {
                Ok(q) => index@.fraud_count(q@, nprobe as int),
                Err(_) => 0,
            },
        ),
        reply.length_is_right(),
{
    let fraud_count = match query {
        Ok(q) => index.query(&q, nprobe),
        Err(_) => 0,
    };
    score_resp(fraud_count)
}

/// The answer to a request for a score, from the request as it was read and its numbers. A
/// request that could not be read is approved with a score of zero.
pub fn score_request(
    index: &IvfIndex,
    request: Result<(&Transaction, &Measures), ()>,
    tables: &Tables,
    nprobe: usize,
) -> (reply: Reply)
    requires
        request matches Ok((tx, m)) ==> {
            &&& tx.hour <= calendar::LAST_HOUR
            &&& tx.day_of_week <= calendar::LAST_DAY
            &&& tx.mcc_len <= 8
            &&& index@.answers(vectorize::features(*tx, *m, tables@), nprobe as int)
        },
    ensures
        is_score_reply(
            reply,
            match request {
                Ok((tx, m)) => index@.fraud_count(
                    vectorize::features(*tx, *m, tables@),
                    nprobe as int,
                ),
                Err(_) => 0,
            },
        ),
        reply.length_is_right(),
{
    let query = match request {
        Ok((tx, m)) => Ok(vectorize::vectorize(tx, m, tables)),
        Err(_) => Err(()),
    };
    fraud_score_handler(index, query, nprobe)
}

/// The answer to the question whether the service is ready.
pub fn ready_resp() -> (reply: Reply)
    ensures
        reply.status == 200,
        reply.content_type is None,
        reply.content_length == "2",
        reply.keep_alive,
        reply.body == "OK",
        reply.length_is_right(),
{
    proof {
        reveal_with_fuel(decimal, 2);
        reveal_strlit("2");
        reveal_strlit("OK");
        is_ascii_spec_bytes("OK");
    }
    Reply { status: 200, content_type: None, content_length: "2", keep_alive: true, body: "OK" }
}

/// The answer to a request for anything else.
pub fn not_found_resp() -> (reply: Reply)
    ensures
        reply.status == 404,
        reply.content_type is None,
        reply.content_length == "0",
        !reply.keep_alive,
        reply.body == "",
        reply.length_is_right(),
{
    proof {
        reveal_with_fuel(decimal, 2);
        reveal_strlit("0");
        reveal_strlit("");
        is_ascii_spec_bytes("");
    }
    Reply { status: 404, content_type: None, content_length: "0", keep_alive: false, body: "" }
}

} // verus!
