//! A text rendering of JSON values for diagnostics.
//!
//! A value is written as its variant with its contents in brackets:
//! `Array([Null, Boolean(true)])`, `Object({"pitch": Number(440.0)})`. Texts
//! stand between double quotes as they are, without escapes. A whole number of
//! a magnitude below 2^64 is written in decimal with `.0` behind it, any other
//! number as the sixteen hexadecimal digits of its bit pattern behind `0x`. The
//! members of an object come in the order in which the object keeps them.

use vstd::prelude::*;
use vstd::string::StringExecFns;
use crate::equality::json_eq;
use crate::number::{is_whole, sign_negative, whole_magnitude, Double};
use crate::value::{Json, JsonView};

verus! {

/// The character of a digit below sixteen.
pub open spec fn digit_char(d: nat) -> char {
    "0123456789abcdef"@[d as int]
}

/// The decimal digits of `n`.
pub open spec fn decimal(n: nat) -> Seq<char>
    decreases n,
{
    if n < 10 {
        seq![digit_char(n)]
    } else {
        decimal(n / 10).push(digit_char(n % 10))
    }
}

/// The last `width` hexadecimal digits of `n`.
pub open spec fn hexadecimal(n: nat, width: nat) -> Seq<char>
    decreases width,
{
    if width == 0 {
        Seq::empty()
    } else {
        hexadecimal(n / 16, (width - 1) as nat).push(digit_char(n % 16))
    }
}

/// The text of a number.
pub open spec fn number_text(bits: u64) -> Seq<char> {
    if is_whole(bits) && whole_magnitude(bits) <= u64::MAX {
        (if sign_negative(bits) {
            "-"@
        } else {
            ""@
        }) + decimal(whole_magnitude(bits)) + ".0"@
    } else {
        "0x"@ + hexadecimal(bits as nat, 16)
    }
}

/// The text of the first `count` of a sequence of values, with `, ` between
/// them.
pub open spec fn items_text(items: Seq<JsonView>, count: int) -> Seq<char>
    decreases items, count,
{
    if 0 < count <= items.len() {
        items_text(items, count - 1) + (if count > 1 {
            ", "@
        } else {
            ""@
        }) + rendering(items[count - 1])
    } else {
        Seq::empty()
    }
}

/// The text of the first `count` of a sequence of members, with `, ` between
/// them.
pub open spec fn members_text(members: Seq<(Seq<char>, JsonView)>, count: int) -> Seq<char>
    decreases members, count,
{
    if 0 < count <= members.len() {
        members_text(members, count - 1) + (if count > 1 {
            ", "@
        } else {
            ""@
        }) + "\""@ + members[count - 1].0 + "\": "@ + rendering(members[count - 1].1)
    } else {
        Seq::empty()
    }
}

/// The text of a value.
pub open spec fn rendering(v: JsonView) -> Seq<char>
    decreases v, 0int,
{
    match v {
        JsonView::Null => "Null"@,
        JsonView::Boolean(b) => if b {
            "Boolean(true)"@
        } else {
            "Boolean(false)"@
        },
        JsonView::Number(bits) => "Number("@ + number_text(bits) + ")"@,
        JsonView::String(s) => "String(\""@ + s + "\")"@,
        JsonView::Array(items) => "Array(["@ + items_text(items, items.len() as int) + "])"@,
        JsonView::Object(members) => "Object({"@ + members_text(members, members.len() as int)
            + "})"@,
    }
}

/// The text of a digit below sixteen.
fn digit_text(d: u64) -> (r: &'static str)
    requires
        d < 16,
    ensures
        r@ == seq![digit_char(d as nat)],
{
    proof {
        reveal_strlit("0123456789abcdef");
        reveal_strlit("0");
        reveal_strlit("1");
        reveal_strlit("2");
        reveal_strlit("3");
        reveal_strlit("4");
        reveal_strlit("5");
        reveal_strlit("6");
        reveal_strlit("7");
        reveal_strlit("8");
        reveal_strlit("9");
        reveal_strlit("a");
        reveal_strlit("b");
        reveal_strlit("c");
        reveal_strlit("d");
        reveal_strlit("e");
        reveal_strlit("f");
    }
    let r = if d == 0 {
        "0"
    } else if d == 1 {
        "1"
    } else if d == 2 {
        "2"
    } else if d == 3 {
        "3"
    } else if d == 4 {
        "4"
    } else if d == 5 {
        "5"
    } else if d == 6 {
        "6"
    } else if d == 7 {
        "7"
    } else if d == 8 {
        "8"
    } else if d == 9 {
        "9"
    } else if d == 10 {
        "a"
    } else if d == 11 {
        "b"
    } else if d == 12 {
        "c"
    } else if d == 13 {
        "d"
    } else if d == 14 {
        "e"
    } else {
        "f"
    };
    assert(r@ =~= seq![digit_char(d as nat)]);
    r
}

/// Appends the decimal digits of `n`.
fn push_decimal(out: &mut String, n: u64)
    ensures
        final(out)@ == old(out)@ + decimal(n as nat),
    decreases n,
{
    if n >= 10 {
        push_decimal(out, n / 10);
    }
    out.append(digit_text(n % 10));
    assert(out@ =~= old(out)@ + decimal(n as nat));
}

/// Appends the last `width` hexadecimal digits of `n`.
fn push_hexadecimal(out: &mut String, n: u64, width: u32)
    ensures
        final(out)@ == old(out)@ + hexadecimal(n as nat, width as nat),
    decreases width,
{
    if width > 0 {
        push_hexadecimal(out, n / 16, width - 1);
        out.append(digit_text(n % 16));
    }
    assert(out@ =~= old(out)@ + hexadecimal(n as nat, width as nat));
}

/// Appends the text of a number.
fn push_number(out: &mut String, d: Double)
    ensures
        final(out)@ == old(out)@ + number_text(d@),
{
    match d.whole() {
        Some(n) => {
            if d.is_sign_negative() {
                out.append("-");
            }
            push_decimal(out, n);
            out.append(".0");
        },
        None => {
            out.append("0x");
            push_hexadecimal(out, d.to_bits(), 16);
        },
    }
    proof {
        reveal_strlit("");
        assert(out@ =~= old(out)@ + number_text(d@));
    }
}

/// Appends the text of a value.
fn push_json(out: &mut String, json: &Json)
    ensures
        final(out)@ == old(out)@ + rendering(json@),
    decreases json,
{
    match json {
        Json::Null => {
            out.append("Null");
        },
        Json::Boolean(b) => {
            if *b {
                out.append("Boolean(true)");
            } else {
                out.append("Boolean(false)");
            }
        },
        Json::Number(d) => {
            out.append("Number(");
            push_number(out, *d);
            out.append(")");
            assert(out@ =~= old(out)@ + rendering(json@));
        },
        Json::String(s) => {
            out.append("String(\"");
            out.append(s.as_str());
            out.append("\")");
            assert(out@ =~= old(out)@ + rendering(json@));
        },
        Json::Array(items) => {
            let ghost views = json@->Array_0;
            out.append("Array([");
            let mut i: usize = 0;
            while i < items.len()
                invariant
                    *json == Json::Array(*items),
                    views == json@->Array_0,
                    i <= items.len(),
                    out@ == old(out)@ + "Array(["@ + items_text(views, i as int),
                decreases items.len() - i,
            {
                if i > 0 {
                    out.append(", ");
                }
                proof {
                    reveal_strlit("");
                    assert(decreases_to!(*json => json->Array_0[i as int]));
                    assert(views[i as int] == items[i as int]@);
                }
                push_json(out, &items[i]);
                i = i + 1;
                assert(out@ =~= old(out)@ + "Array(["@ + items_text(views, i as int));
            }
            out.append("])");
            assert(out@ =~= old(out)@ + rendering(json@));
        },
        Json::Object(object) => {
            let ghost members = object@;
            proof {
                object.lemma_pairs();
            }
            out.append("Object({");
            let mut i: usize = 0;
            while i < object.entries.len()
                invariant
                    *json == Json::Object(*object),
                    members == object@,
                    members == crate::value::pairs_of(object.entries@),
                    i <= object.entries.len(),
                    out@ == old(out)@ + "Object({"@ + members_text(members, i as int),
                decreases object.entries.len() - i,
            {
                if i > 0 {
                    out.append(", ");
                }
                proof {
                    reveal_strlit("");
                    assert(members[i as int] == (
                        object.entries[i as int].0@,
                        object.entries[i as int].1@,
                    ));
                    assert(decreases_to!(*json => json->Object_0.entries[i as int].1));
                }
                out.append("\"");
                out.append(object.entries[i].0.as_str());
                out.append("\": ");
                push_json(out, &object.entries[i].1);
                i = i + 1;
                assert(out@ =~= old(out)@ + "Object({"@ + members_text(members, i as int));
            }
            out.append("})");
            assert(out@ =~= old(out)@ + rendering(json@));
        },
    }
}

impl Json {
    /// The text of the value, for diagnostics.
    pub fn debug_text(&self) -> (text: String)
        ensures
            text@ == rendering(self@),
    {
        let mut text = String::new();
        push_json(&mut text, self);
        text
    }
}

/// Two values that were expected to be equal and are not, each as its text.
#[derive(Debug, PartialEq, Eq)]
pub struct Mismatch {
    /// The text of the left value.
    pub left: String,
    /// The text of the right value.
    pub right: String,
}

/// The words in which a mismatch is reported.
pub open spec fn mismatch_text(left: Seq<char>, right: Seq<char>) -> Seq<char> {
    "assertion failed: `(left == right)` (left: `"@ + left + "`, right: `"@ + right + "`)"@
}

impl Clone for Mismatch {
    fn clone(&self) -> (r: Mismatch)
        ensures
            r.left@ == self.left@,
            r.right@ == self.right@,
    {
        Mismatch { left: self.left.clone(), right: self.right.clone() }
    }
}

impl Mismatch {
    /// The report of the mismatch, with the texts of both values.
    pub fn message(&self) -> (text: String)
        ensures
            text@ == mismatch_text(self.left@, self.right@),
    {
        let mut text = String::from_str("assertion failed: `(left == right)` (left: `");
        text.append(self.left.as_str());
        text.append("`, right: `");
        text.append(self.right.as_str());
        text.append("`)");
        text
    }
}

/// Compares two values for a test: nothing is wrong where they are equal, and
/// where they are not, the texts of both are handed back.
pub fn expect_equal(left: &Json, right: &Json) -> (r: Result<(), Mismatch>)
    ensures
        match r {
            Ok(_) => json_eq(left@, right@),
            Err(mismatch) => !json_eq(left@, right@) && mismatch.left@ == rendering(left@)
                && mismatch.right@ == rendering(right@),
        },
{
    if left.equals(right) {
        Ok(())
    } else {
        Err(Mismatch { left: left.debug_text(), right: right.debug_text() })
    }
}

} // verus!
