//! Answers as text, for an error that has to say what it got.

use vstd::prelude::*;
use vstd::string::*;

use crate::api::{ApiError, ApiErrorView, Response, ResponseView};
use crate::text::{
    debug_text, decimal, digit, push_decimal, push_digit, push_signed, quoted, signed_decimal,
};
use crate::wire::Wire;

verus! {

/// A byte of a byte string: itself where it can be printed, and escaped where it
/// cannot.
pub open spec fn shown_byte(b: u8) -> Seq<char> {
    if b == 0x0a {
        "\\n"@
    } else if b == 0x0d {
        "\\r"@
    } else if b == 0x09 {
        "\\t"@
    } else if b == 0x5c {
        "\\\\"@
    } else if b == 0x22 {
        "\\\""@
    } else if b == 0 {
        "\\0"@
    } else if 0x20 <= b < 0x7f {
        seq![b as char]
    } else {
        "\\x"@ + seq![digit(b as nat / 16), digit(b as nat % 16)]
    }
}

/// The inside of a byte string.
pub open spec fn shown_inside(bytes: Seq<u8>) -> Seq<char>
    decreases bytes.len(),
{
    if bytes.len() == 0 {
        Seq::empty()
    } else {
        shown_inside(bytes.drop_last()) + shown_byte(bytes.last())
    }
}

/// Bytes as a byte string.
pub open spec fn shown_bytes(bytes: Seq<u8>) -> Seq<char> {
    "b\""@ + shown_inside(bytes) + "\""@
}

/// Bytes that may be absent.
pub open spec fn shown_optional(bytes: Option<Seq<u8>>) -> Seq<char> {
    match bytes {
        Some(bytes) => "Some("@ + shown_bytes(bytes) + ")"@,
        None => "None"@,
    }
}

/// Rows, with commas between them.
pub open spec fn shown_rows(rows: Seq<(Seq<u8>, Seq<u8>)>) -> Seq<char>
    decreases rows.len(),
{
    if rows.len() == 0 {
        Seq::empty()
    } else {
        let row = rows.last();
        shown_rows(rows.drop_last()) + (if rows.len() > 1 {
            ", "@
        } else {
            ""@
        }) + "("@ + shown_bytes(row.0) + ", "@ + shown_bytes(row.1) + ")"@
    }
}

/// An error an answer carries.
pub open spec fn shown_error(e: ApiErrorView) -> Seq<char> {
    match e {
        ApiErrorView::SessionExpired => "SessionExpired"@,
        ApiErrorView::SequenceTooOld { got, floor } => "SequenceTooOld { got: "@ + decimal(
            got as nat,
        ) + ", floor: "@ + decimal(floor as nat) + " }"@,
        ApiErrorView::Unavailable => "Unavailable"@,
        ApiErrorView::TooLarge { got, limit } => "TooLarge { got: "@ + decimal(got as nat)
            + ", limit: "@ + decimal(limit as nat) + " }"@,
        ApiErrorView::NodeFailed(why) => "NodeFailed("@ + debug_text(why) + ")"@,
    }
}

/// A leader that may not be known.
pub open spec fn shown_leader(leader: Option<u64>) -> Seq<char> {
    match leader {
        Some(id) => "Some("@ + decimal(id as nat) + ")"@,
        None => "None"@,
    }
}

/// An answer.
pub open spec fn shown_response(response: ResponseView) -> Seq<char> {
    match response {
        ResponseView::Registered { client } => "Registered { client: "@ + decimal(client as nat)
            + " }"@,
        ResponseView::Applied => "Applied"@,
        ResponseView::CasMismatch { actual } => "CasMismatch { actual: "@ + shown_optional(actual)
            + " }"@,
        ResponseView::Value(value) => "Value("@ + shown_optional(value) + ")"@,
        ResponseView::Scanned(rows) => "Scanned(["@ + shown_rows(rows) + "])"@,
        ResponseView::NotLeader { leader } => "NotLeader { leader: "@ + shown_leader(leader)
            + " }"@,
        ResponseView::Error(e) => "Error("@ + shown_error(e) + ")"@,
        ResponseView::Counter(n) => "Counter("@ + signed_decimal(n as int) + ")"@,
    }
}

fn push_byte(out: &mut String, b: u8)
    ensures
        final(out)@ == old(out)@ + shown_byte(b),
{
    if b == 0x0a {
        out.append("\\n");
    } else if b == 0x0d {
        out.append("\\r");
    } else if b == 0x09 {
        out.append("\\t");
    } else if b == 0x5c {
        out.append("\\\\");
    } else if b == 0x22 {
        out.append("\\\"");
    } else if b == 0 {
        out.append("\\0");
    } else if 0x20 <= b && b < 0x7f {
        out.push(b as char);
        proof {
            assert(out@ =~= old(out)@ + shown_byte(b));
        }
    } else {
        out.append("\\x");
        push_digit(out, b as u64 / 16);
        push_digit(out, b as u64 % 16);
        proof {
            assert(out@ =~= old(out)@ + shown_byte(b));
        }
    }
}

fn push_bytes(out: &mut String, bytes: &[u8])
    ensures
        final(out)@ == old(out)@ + shown_bytes(bytes@),
{
    out.append("b\"");
    let ghost head = out@;
    let mut i: usize = 0;
    proof {
        assert(bytes@.take(0) =~= Seq::empty());
        assert(head =~= head + shown_inside(bytes@.take(0)));
    }
    while i < bytes.len()
        invariant
            i <= bytes@.len(),
            out@ == head + shown_inside(bytes@.take(i as int)),
        decreases bytes@.len() - i,
    {
        push_byte(out, bytes[i]);
        proof {
            assert(bytes@.take(i + 1).drop_last() =~= bytes@.take(i as int));
            assert(out@ =~= head + shown_inside(bytes@.take(i + 1)));
        }
        i += 1;
    }
    out.append("\"");
    proof {
        assert(bytes@.take(i as int) =~= bytes@);
        assert(out@ =~= old(out)@ + shown_bytes(bytes@));
    }
}

fn push_optional(out: &mut String, bytes: &Option<Vec<u8>>)
    ensures
        final(out)@ == old(out)@ + shown_optional(bytes.model()),
{
    match bytes {
        Some(bytes) => {
            out.append("Some(");
            push_bytes(out, bytes.as_slice());
            out.append(")");
        },
        None => {
            out.append("None");
        },
    }
    proof {
        assert(out@ =~= old(out)@ + shown_optional(bytes.model()));
    }
}

fn push_rows(out: &mut String, rows: &Vec<(Vec<u8>, Vec<u8>)>)
    ensures
        final(out)@ == old(out)@ + shown_rows(rows.model()),
{
    let ghost head = out@;
    let ghost all = rows.model();
    let mut i: usize = 0;
    proof {
        assert(all.take(0) =~= Seq::empty());
        assert(head =~= head + shown_rows(all.take(0)));
    }
    while i < rows.len()
        invariant
            i <= rows@.len(),
            all == rows.model(),
            all.len() == rows@.len(),
            out@ == head + shown_rows(all.take(i as int)),
        decreases rows@.len() - i,
    {
        let ghost before = out@;
        if i > 0 {
            out.append(", ");
        } else {
            out.append("");
        }
        out.append("(");
        push_bytes(out, rows[i].0.as_slice());
        out.append(", ");
        push_bytes(out, rows[i].1.as_slice());
        out.append(")");
        proof {
            assert(all.take(i + 1).drop_last() =~= all.take(i as int));
            assert(all[i as int] == (rows@[i as int].0@, rows@[i as int].1@));
            assert(out@ =~= head + shown_rows(all.take(i + 1)));
        }
        i += 1;
    }
    proof {
        assert(all.take(i as int) =~= all);
    }
}

fn push_error(out: &mut String, e: &ApiError)
    ensures
        final(out)@ == old(out)@ + shown_error(e@),
{
    match e {
        ApiError::SessionExpired => {
            out.append("SessionExpired");
        },
        ApiError::SequenceTooOld { got, floor } => {
            out.append("SequenceTooOld { got: ");
            push_decimal(out, *got);
            out.append(", floor: ");
            push_decimal(out, *floor);
            out.append(" }");
        },
        ApiError::Unavailable => {
            out.append("Unavailable");
        },
        ApiError::TooLarge { got, limit } => {
            out.append("TooLarge { got: ");
            push_decimal(out, *got as u64);
            out.append(", limit: ");
            push_decimal(out, *limit as u64);
            out.append(" }");
        },
        ApiError::NodeFailed(why) => {
            out.append("NodeFailed(");
            out.append(quoted(why.as_str()).as_str());
            out.append(")");
        },
    }
    proof {
        assert(out@ =~= old(out)@ + shown_error(e@));
    }
}

fn push_leader(out: &mut String, leader: &Option<u64>)
    ensures
        final(out)@ == old(out)@ + shown_leader(*leader),
{
    match leader {
        Some(id) => {
            out.append("Some(");
            push_decimal(out, *id);
            out.append(")");
        },
        None => {
            out.append("None");
        },
    }
    proof {
        assert(out@ =~= old(out)@ + shown_leader(*leader));
    }
}

/// Append an answer.
pub fn push_response(out: &mut String, response: &Response)
    ensures
        final(out)@ == old(out)@ + shown_response(response@),
{
    match response {
        Response::Registered { client } => {
            out.append("Registered { client: ");
            push_decimal(out, *client);
            out.append(" }");
        },
        Response::Applied => {
            out.append("Applied");
        },
        Response::CasMismatch { actual } => {
            out.append("CasMismatch { actual: ");
            push_optional(out, actual);
            out.append(" }");
        },
        Response::Value(value) => {
            out.append("Value(");
            push_optional(out, value);
            out.append(")");
        },
        Response::Scanned(rows) => {
            out.append("Scanned([");
            push_rows(out, rows);
            out.append("])");
        },
        Response::NotLeader { leader } => {
            out.append("NotLeader { leader: ");
            push_leader(out, leader);
            out.append(" }");
        },
        Response::Error(e) => {
            out.append("Error(");
            push_error(out, e);
            out.append(")");
        },
        Response::Counter(n) => {
            out.append("Counter(");
            push_signed(out, *n);
            out.append(")");
        },
    }
    proof {
        assert(out@ =~= old(out)@ + shown_response(response@));
    }
}

} // verus!
