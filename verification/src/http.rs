//! The bytes on the wire: where a request ends and what the answer is.

use vstd::prelude::*;
use vstd::utf8::{decode_utf8, valid_utf8};

verus! {

/// How many bytes of a request are kept.
pub const REQUEST_CAPACITY: usize = 1024;

/// How many bytes the answer has.
pub const RESPONSE_LEN: usize = 68;

/// The answer to every request, as text.
pub open spec fn response_text() -> Seq<char> {
    "HTTP/1.1 200 OK\r\nContent-Length:12\nConnection: close\r\n\r\nHello World!"@
}

/// The answer to every request, as the bytes to send.
pub open spec fn response() -> Seq<u8> {
    Seq::new(response_text().len(), |i: int| response_text()[i] as u8)
}

/// The blank line that ends a request: `\r\n\r\n`.
pub open spec fn request_end() -> Seq<u8> {
    seq![13u8, 10u8, 13u8, 10u8]
}

/// Whether `bytes` is a whole request.
pub open spec fn is_request(bytes: Seq<u8>) -> bool {
    request_end().is_suffix_of(bytes)
}

/// The answer has the length that the code relies on.
pub proof fn lemma_response_len()
    ensures
        response().len() == RESPONSE_LEN,
{
    reveal_strlit(
        "HTTP/1.1 200 OK\r\nContent-Length:12\nConnection: close\r\n\r\nHello World!",
    );
}

/// The bytes of a text of ASCII characters.
pub open spec fn ascii(text: Seq<char>) -> Seq<u8> {
    text.map_values(|c: char| c as u8)
}

/// The answer is a status line that says all is well, the length of the body, the
/// announcement that the connection is closed, a blank line, and a body of the length
/// announced.
pub proof fn law_answer_is_a_response()
    ensures
        response() == ascii("HTTP/1.1 200 OK\r\n"@) + ascii("Content-Length:12\n"@) + ascii(
            "Connection: close\r\n\r\n"@,
        ) + ascii("Hello World!"@),
        ascii("Hello World!"@).len() == 12,
{
    reveal_strlit(
        "HTTP/1.1 200 OK\r\nContent-Length:12\nConnection: close\r\n\r\nHello World!",
    );
    reveal_strlit("HTTP/1.1 200 OK\r\n");
    reveal_strlit("Content-Length:12\n");
    reveal_strlit("Connection: close\r\n\r\n");
    reveal_strlit("Hello World!");
    assert(response() =~= ascii("HTTP/1.1 200 OK\r\n"@) + ascii("Content-Length:12\n"@) + ascii(
        "Connection: close\r\n\r\n"@,
    ) + ascii("Hello World!"@));
}

/// A request is whole if and only if its last four bytes are carriage return, line feed,
/// carriage return, line feed, whatever comes before them.
pub proof fn law_request_ends_with_a_blank_line(bytes: Seq<u8>)
    ensures
        is_request(bytes) <==> {
            let n = bytes.len() as int;
            &&& n >= 4
            &&& bytes[n - 4] == '\r' as u8
            &&& bytes[n - 3] == '\n' as u8
            &&& bytes[n - 2] == '\r' as u8
            &&& bytes[n - 1] == '\n' as u8
        },
{
    let n = bytes.len() as int;
    if n >= 4 {
        let tail = bytes.subrange(n - 4, n);
        assert(tail[0] == bytes[n - 4] && tail[1] == bytes[n - 3] && tail[2] == bytes[n - 2]
            && tail[3] == bytes[n - 1]);
        assert(request_end() == tail <==> request_end() =~= tail);
        assert(is_request(bytes) == (request_end() == tail));
    }
}

/// What has been added in front of a request, or to bytes that are none, makes no
/// difference to where it ends.
pub proof fn law_only_the_end_counts(front: Seq<u8>, bytes: Seq<u8>)
    requires
        bytes.len() >= 4,
    ensures
        is_request(front + bytes) == is_request(bytes),
{
    law_request_ends_with_a_blank_line(front + bytes);
    law_request_ends_with_a_blank_line(bytes);
}

/// The bytes of the answer.
pub fn response_bytes() -> (bytes: &'static [u8])
    ensures
        bytes@ == response(),
        bytes@.len() == RESPONSE_LEN,
{
    let text =
        "HTTP/1.1 200 OK\r\nContent-Length:12\nConnection: close\r\n\r\nHello World!";
    proof {
        reveal_strlit(
            "HTTP/1.1 200 OK\r\nContent-Length:12\nConnection: close\r\n\r\nHello World!",
        );
        assert(vstd::string::is_ascii(text));
        vstd::string::is_ascii_spec_bytes(text);
    }
    text.as_bytes()
}

/// Tells whether `bytes` ends with the blank line that ends a request.
pub fn ends_request(bytes: &[u8]) -> (res: bool)
    ensures
        res == is_request(bytes@),
{
    let n: usize = bytes.len();
    if n < 4 {
        return false;
    }
    let res = bytes[n - 4] == 13 && bytes[n - 3] == 10 && bytes[n - 2] == 13 && bytes[n - 1] == 10;
    proof {
        let tail = bytes@.subrange(n - 4, n as int);
        assert(is_request(bytes@) == (request_end() == tail));
        if res {
            assert(request_end() =~= tail);
        } else {
            assert(tail[0] == bytes[n - 4] && tail[1] == bytes[n - 3] && tail[2] == bytes[n - 2]
                && tail[3] == bytes[n - 1]);
        }
    }
    res
}

/// The text that `String::from_utf8_lossy` makes of `bytes`.
pub uninterp spec fn utf8_lossy(bytes: Seq<u8>) -> Seq<char>;

/// Calls `String::from_utf8_lossy`. The result is determined by the bytes. Bytes that
/// are valid UTF-8 come out as the text they encode; with what the invalid parts of
/// other bytes are replaced is not stated.
#[verifier::external_body]
fn from_utf8_lossy(bytes: &[u8]) -> (text: String)
    ensures
        text@ == utf8_lossy(bytes@),
        valid_utf8(bytes@) ==> text@ == decode_utf8(bytes@),
{
    String::from_utf8_lossy(bytes).into_owned()
}

/// A request as text to print.
pub fn request_text(request: &[u8]) -> (text: String)
    ensures
        text@ == utf8_lossy(request@),
        valid_utf8(request@) ==> text@ == decode_utf8(request@),
{
    from_utf8_lossy(request)
}

} // verus!
