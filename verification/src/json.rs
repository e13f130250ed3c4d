//! Access to JSON sidecar records: looking up one string field of a JSON
//! document, through the JSON parser.
//!
//! The parser is only handed tame documents (see [`spec_json_tame`]): its
//! internal bookkeeping uses unchecked arithmetic that overflows — and
//! panics — on pathological inputs, so a verified scanner screens every
//! document first, and untame content is treated as unparseable.

use vstd::prelude::*;

verus! {

/// Whether `c` is a decimal digit.
pub open spec fn spec_is_digit(c: char) -> bool {
    '0' <= c && c <= '9'
}

/// Whether the 19 characters of `s` from position `i` on are all digits.
pub open spec fn spec_digit_run_at(s: Seq<char>, i: int) -> bool {
    forall|j: int| i <= j < i + 19 ==> spec_is_digit(#[trigger] s[j])
}

/// Whether `s` holds 19 or more consecutive decimal digits somewhere.
pub open spec fn spec_has_long_digit_run(s: Seq<char>) -> bool {
    exists|i: int| 0 <= i && i + 19 <= s.len() && #[trigger] spec_digit_run_at(s, i)
}

/// A document this crate may hand to the JSON parser: at most 16000
/// characters, free of runs of 19 or more decimal digits. Within these
/// bounds the parser's unchecked arithmetic cannot overflow: it keeps each
/// object key's byte position and length in 16-bit integers, which a
/// document of at most 64000 bytes (16000 characters of up to four bytes)
/// cannot exceed, and its number-exponent accumulator gains one decimal
/// digit per digit of a run, which 18 digits keep far below 64 bits.
pub open spec fn spec_json_tame(s: Seq<char>) -> bool {
    s.len() <= 16000 && !spec_has_long_digit_run(s)
}

/// Decides whether `s` is tame enough for the JSON parser.
pub fn json_tame(s: &str) -> (r: bool)
    ensures
        r == spec_json_tame(s@),
{
    let n = s.unicode_len();
    if n > 16000 {
        return false;
    }
    let mut i: usize = 0;
    let mut run: usize = 0;
    proof {
        assert(s@.take(0int) =~= Seq::<char>::empty());
        assert(!spec_has_long_digit_run(s@.take(0int)));
    }
    while i < n
        invariant
            0 <= i <= n,
            n == s@.len(),
            run <= i,
            run <= 18,
            forall|j: int| i - run <= j < i ==> spec_is_digit(#[trigger] s@[j]),
            run == i || !spec_is_digit(s@[i - run - 1]),
            !spec_has_long_digit_run(s@.take(i as int)),
        decreases n - i,
    {
        let ghost old_run = run as int;
        let c = s.get_char(i);
        if '0' <= c && c <= '9' {
            if run == 18 {
                proof {
                    let w = i - 18;
                    assert(spec_is_digit(s@[i as int]));
                    assert(spec_digit_run_at(s@, w));
                    assert(spec_has_long_digit_run(s@));
                }
                return false;
            }
            run = run + 1;
        } else {
            run = 0;
        }
        proof {
            assert(!spec_has_long_digit_run(s@.take(i + 1))) by {
                if spec_has_long_digit_run(s@.take(i + 1)) {
                    let w = choose|w: int|
                        0 <= w && w + 19 <= i + 1 && #[trigger] spec_digit_run_at(
                            s@.take(i + 1),
                            w,
                        );
                    assert forall|j: int| w <= j < w + 19 implies spec_is_digit(
                        #[trigger] s@[j],
                    ) by {
                        assert(spec_is_digit(s@.take(i + 1)[j]));
                        assert(s@.take(i + 1)[j] == s@[j]);
                    }
                    if w + 19 <= i as int {
                        assert forall|j: int| w <= j < w + 19 implies spec_is_digit(
                            #[trigger] s@.take(i as int)[j],
                        ) by {
                            assert(s@.take(i as int)[j] == s@[j]);
                        }
                        assert(spec_digit_run_at(s@.take(i as int), w));
                        assert(spec_has_long_digit_run(s@.take(i as int)));
                    } else {
                        // The run would end at the new character, so the 18
                        // characters before it are digits; the invariant
                        // then puts a digit right before the tracked run,
                        // which it excludes.
                        assert(w == i - 18);
                        assert(spec_is_digit(s@[i as int]));
                        assert(old_run < 18);
                        assert(old_run != i as int);
                        assert(!spec_is_digit(s@[i - old_run - 1]));
                        assert(w <= i - old_run - 1 < i as int);
                    }
                }
            }
        }
        i += 1;
    }
    proof {
        assert(s@.take(n as int) =~= s@);
    }
    true
}

/// The string value at the top-level key `key` of the JSON document `s`,
/// or `None` where `s` does not parse, is not an object, lacks the key, or
/// holds a non-string value there. The outcome is a function of the
/// document text and the key alone.
pub uninterp spec fn json_field(s: Seq<char>, key: Seq<char>) -> Option<Seq<char>>;

/// Relies on `rustc_serialize::json::Json::from_str` to parse the document,
/// on `Json::find` to look the key up in a top-level object, and on
/// `Json::as_string` to read the value when it is a string; all three are
/// deterministic in the document text and the key. Only tame documents are
/// admitted: on others the parser's 16-bit key bookkeeping or its unchecked
/// exponent accumulator can overflow and panic.
#[verifier::external_body]
pub(crate) fn json_string_field(s: &str, key: &str) -> (r: Option<String>)
    requires
        spec_json_tame(s@),
    ensures
        r.deep_view() == json_field(s@, key@),
{
    match rustc_serialize::json::Json::from_str(s) {
        Ok(doc) => match doc.find(key) {
            Some(value) => value.as_string().map(|t| t.to_owned()),
            None => None,
        },
        Err(_) => None,
    }
}

} // verus!
