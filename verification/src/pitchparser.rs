//! The grammar of note names.
//!
//! A pitch is written as a letter from `A` to `G`, then `#` or `-` if it is
//! raised or lowered by a semitone, then its octave in digits if it has
//! one: `C4`, `B-4`, `F#3`. A chord is written as its pitches with a space,
//! or a comma and a space, between each two.

use crate::pitch::{
    in_pitch_range, pitch_name, spelled_accidental, spelled_octave, spelled_step, Accidental,
    ErrorKind, ParsePitchError, Pitch, Stepname,
};
use crate::text::{
    char_to_digit, decimal, decimal_value, digit_value, is_digits, lemma_decimal_round_trip,
};
use vstd::prelude::*;
use vstd::string::StrSliceExecFns;

verus! {

/// An error of the given kind.
pub open spec fn pitch_error(kind: ErrorKind) -> ParsePitchError {
    ParsePitchError { kind }
}

/// The pitch that a name denotes: a syntax error if it is no name, a range
/// error if it names no pitch from 0 to 255.
pub open spec fn pitch_of_text(t: Seq<char>) -> Result<Pitch, ParsePitchError> {
    if t.len() == 0 || Stepname::of_letter(t[0]) is None {
        Err(pitch_error(ErrorKind::Syntax))
    } else {
        let step = Stepname::of_letter(t[0])->0;
        let marked = t.len() > 1 && (t[1] == '#' || t[1] == '-');
        let accidental = if !marked {
            Accidental::Natural
        } else if t[1] == '#' {
            Accidental::Sharp
        } else {
            Accidental::Flat
        };
        let digits = t.skip(
            if marked {
                2
            } else {
                1
            },
        );
        if !is_digits(digits) {
            Err(pitch_error(ErrorKind::Syntax))
        } else {
            let height = if digits.len() == 0 {
                0
            } else {
                (decimal_value(digits) + 1) * 12
            };
            let value = step.semitone() + accidental.offset() + height;
            if in_pitch_range(value) {
                Ok(Pitch(value as u8))
            } else {
                Err(pitch_error(ErrorKind::Range))
            }
        }
    }
}

/// A character that ends a name.
pub open spec fn is_separator(c: char) -> bool {
    c == ' ' || c == ','
}

/// The length of the name at the start of the text: up to the first
/// separator or the end.
pub open spec fn token_len(t: Seq<char>) -> nat
    decreases t.len(),
{
    if t.len() == 0 || is_separator(t[0]) {
        0
    } else {
        1 + token_len(t.drop_first())
    }
}

/// The length of what separates two names at `at`: a space, or a comma
/// and a space; 0 if neither stands there.
pub open spec fn separator_len(t: Seq<char>, at: int) -> nat {
    if 0 <= at < t.len() && t[at] == ' ' {
        1
    } else if 0 <= at && at + 1 < t.len() && t[at] == ',' && t[at + 1] == ' ' {
        2
    } else {
        0
    }
}

/// The pitches before those that follow, or the error that follows.
pub open spec fn with_pitches(front: Seq<Pitch>, rest: Result<Seq<Pitch>, ParsePitchError>) -> Result<
    Seq<Pitch>,
    ParsePitchError,
> {
    match rest {
        Ok(r) => Ok(front + r),
        Err(e) => Err(e),
    }
}

/// The pitches that a text names, in its order; the first error on the
/// way, and a syntax error where a name or a separator is missing.
pub open spec fn pitches_of_text(t: Seq<char>) -> Result<Seq<Pitch>, ParsePitchError>
    decreases t.len(),
{
    let n = token_len(t);
    match pitch_of_text(t.take(n as int)) {
        Err(e) => Err(e),
        Ok(p) => if n >= t.len() {
            Ok(seq![p])
        } else {
            let s = separator_len(t, n as int);
            if s == 0 {
                Err(pitch_error(ErrorKind::Syntax))
            } else {
                with_pitches(seq![p], pitches_of_text(t.skip((n + s) as int)))
            }
        },
    }
}

/// A name ends at the first separator or at the end of the text.
pub proof fn lemma_token_len(t: Seq<char>, m: nat)
    requires
        m <= t.len(),
        forall|k: int| 0 <= k < m ==> !is_separator(#[trigger] t[k]),
        m == t.len() || is_separator(t[m as int]),
    ensures
        token_len(t) == m,
    decreases m,
{
    if m > 0 {
        let rest = t.drop_first();
        assert forall|k: int| 0 <= k < m - 1 implies !is_separator(#[trigger] rest[k]) by {
            assert(rest[k] == t[k + 1]);
        }
        lemma_token_len(rest, (m - 1) as nat);
    }
}

/// A run of digits with one more digit shows ten times the number and the
/// digit.
pub proof fn lemma_decimal_value_step(t: Seq<char>, k: int)
    requires
        0 <= k < t.len(),
    ensures
        decimal_value(t.take(k + 1)) == decimal_value(t.take(k)) * 10 + digit_value(t[k]).unwrap_or(
            0,
        ),
{
    assert(t.take(k + 1).drop_last() =~= t.take(k));
}

/// The name of a pitch holds no separator, and read back it denotes the
/// pitch.
pub proof fn lemma_name_round_trip(v: u8)
    ensures
        pitch_name(v as int).len() > 0,
        forall|k: int| 0 <= k < pitch_name(v as int).len() ==> !is_separator(
            #[trigger] pitch_name(v as int)[k],
        ),
        pitch_of_text(pitch_name(v as int)) == Ok::<Pitch, ParsePitchError>(Pitch(v)),
{
    let class = v as int % 12;
    let step = spelled_step(class);
    let accidental = spelled_accidental(class);
    let mark = accidental.symbol();
    let number = match spelled_octave(v as int) {
        Some(octave) => decimal(octave as nat),
        None => Seq::<char>::empty(),
    };
    let t = pitch_name(v as int);
    assert(t == seq![step.letter()] + mark + number);
    if spelled_octave(v as int) is Some {
        lemma_decimal_round_trip(spelled_octave(v as int)->0 as nat);
    }
    assert(is_digits(number));
    assert(t[0] == step.letter());
    assert(Stepname::of_letter(t[0]) == Some(step));
    let marked = t.len() > 1 && (t[1] == '#' || t[1] == '-');
    if mark.len() == 0 {
        if number.len() > 0 {
            assert(t[1] == number[0]);
            assert(digit_value(number[0]) is Some);
        }
        assert(!marked);
        assert(t.skip(1) =~= number);
    } else {
        assert(t[1] == mark[0]);
        assert(marked);
        assert(t.skip(2) =~= number);
    }
    assert forall|k: int| 0 <= k < t.len() implies !is_separator(#[trigger] t[k]) by {
        if k >= 1 + mark.len() {
            assert(t[k] == number[k - 1 - mark.len()]);
            assert(digit_value(number[k - 1 - mark.len()]) is Some);
        } else if k >= 1 {
            assert(t[k] == mark[k - 1]);
        }
    }
}

/// The characters of a text.
pub fn chars_of(s: &str) -> (r: Vec<char>)
    ensures
        r@ == s@,
{
    let n: usize = s.unicode_len();
    let mut r: Vec<char> = Vec::new();
    let mut i: usize = 0;
    while i < n
        invariant
            i <= n,
            n == s@.len(),
            r@ == s@.take(i as int),
        decreases n - i,
    {
        r.push(s.get_char(i));
        i = i + 1;
        assert(r@ =~= s@.take(i as int));
    }
    assert(r@ =~= s@);
    r
}

/// Semitones of a letter above C.
fn letter_value(step: Stepname) -> (r: i32)
    ensures
        r == step.semitone(),
{
    match step {
        Stepname::C => 0,
        Stepname::D => 2,
        Stepname::E => 4,
        Stepname::F => 5,
        Stepname::G => 7,
        Stepname::A => 9,
        Stepname::B => 11,
    }
}

/// Semitones that an accidental adds.
fn mark_value(accidental: Accidental) -> (r: i32)
    ensures
        r == accidental.offset(),
{
    match accidental {
        Accidental::Natural => 0,
        Accidental::Sharp => 1,
        Accidental::Flat => -1,
    }
}

/// The reader of note names.
#[derive(Clone, Copy, Debug)]
pub struct PitchParser;

impl PitchParser {
    /// The pitch that the characters from `start` up to `end` name.
    pub fn parse_pitch(text: &Vec<char>, start: usize, end: usize) -> (r: Result<
        Pitch,
        ParsePitchError,
    >)
        requires
            start <= end <= text@.len(),
        ensures
            r == pitch_of_text(text@.subrange(start as int, end as int)),
    {
        let ghost t = text@.subrange(start as int, end as int);
        if start == end {
            return Err(ParsePitchError { kind: ErrorKind::Syntax });
        }
        assert(t[0] == text@[start as int]);
        let step = match Stepname::from_char(text[start]) {
            None => {
                return Err(ParsePitchError { kind: ErrorKind::Syntax });
            },
            Some(s) => s,
        };
        let mut pos: usize = start + 1;
        let mut accidental = Accidental::Natural;
        if pos < end {
            assert(t[1] == text@[pos as int]);
            let c = text[pos];
            if c == '#' {
                accidental = Accidental::Sharp;
                pos = pos + 1;
            } else if c == '-' {
                accidental = Accidental::Flat;
                pos = pos + 1;
            }
        }
        let first: usize = pos;
        let ghost digits = t.skip(first - start);
        let mut capped: u32 = 0;
        while pos < end
            invariant
                start < first <= pos <= end <= text@.len(),
                t == text@.subrange(start as int, end as int),
                digits == t.skip(first - start),
                Stepname::of_letter(t[0]) is Some,
                first - start == (if t.len() > 1 && (t[1] == '#' || t[1] == '-') {
                    2int
                } else {
                    1int
                }),
                is_digits(digits.take(pos - first)),
                capped <= 1000,
                capped < 1000 ==> capped == decimal_value(digits.take(pos - first)),
                capped == 1000 ==> decimal_value(digits.take(pos - first)) >= 1000,
            decreases end - pos,
        {
            assert(digits[pos - first] == text@[pos as int]);
            proof {
                lemma_decimal_value_step(digits, pos - first);
            }
            match char_to_digit(text[pos]) {
                None => {
                    assert(digit_value(digits[pos - first]) is None);
                    assert(!is_digits(digits));
                    return Err(ParsePitchError { kind: ErrorKind::Syntax });
                },
                Some(d) => {
                    if capped < 1000 {
                        capped = capped * 10 + d as u32;
                        if capped > 1000 {
                            capped = 1000;
                        }
                    }
                },
            }
            pos = pos + 1;
            assert(is_digits(digits.take(pos - first))) by {
                assert forall|i: int| 0 <= i < pos - first implies digit_value(
                    #[trigger] digits.take(pos - first)[i],
                ) is Some by {
                    if i < pos - first - 1 {
                        assert(digits.take(pos - first - 1)[i] == digits[i]);
                    }
                }
            }
        }
        assert(digits.take(pos - first) =~= digits);
        let octave: Option<u8> = if first == end {
            None
        } else if capped > 255 {
            return Err(ParsePitchError { kind: ErrorKind::Range });
        } else {
            Some(capped as u8)
        };
        let value: i32 = letter_value(step) + mark_value(accidental) + match octave {
            Some(number) => (number as i32 + 1) * 12,
            None => 0,
        };
        if value < 0 || value > 255 {
            Err(ParsePitchError { kind: ErrorKind::Range })
        } else {
            Ok(Pitch::from_stepname(step, accidental, octave))
        }
    }

    /// The pitches that the text names.
    pub fn parse_pitches(text: &Vec<char>) -> (r: Result<Vec<Pitch>, ParsePitchError>)
        ensures
            match pitches_of_text(text@) {
                Ok(pitches) => r matches Ok(found) && found@ == pitches,
                Err(e) => r matches Err(x) && x == e,
            },
    {
        let n: usize = text.len();
        let mut found: Vec<Pitch> = Vec::new();
        let mut pos: usize = 0;
        proof {
            assert(text@.skip(0) =~= text@);
            let whole = pitches_of_text(text@);
            if whole is Ok {
                assert(Seq::<Pitch>::empty() + whole->Ok_0 =~= whole->Ok_0);
            }
        }
        loop
            invariant
                pos <= n,
                n == text@.len(),
                pitches_of_text(text@) == with_pitches(found@, pitches_of_text(text@.skip(pos as int))),
            decreases n - pos,
        {
            let ghost rest = text@.skip(pos as int);
            let ghost front = found@;
            let mut stop: usize = pos;
            while stop < n && text[stop] != ' ' && text[stop] != ','
                invariant
                    pos <= stop <= n,
                    n == text@.len(),
                    forall|k: int| pos <= k < stop ==> !is_separator(#[trigger] text@[k]),
                decreases n - stop,
            {
                stop = stop + 1;
            }
            proof {
                assert forall|k: int| 0 <= k < stop - pos implies !is_separator(#[trigger] rest[k]) by {
                    assert(rest[k] == text@[pos + k]);
                }
                if stop < n {
                    assert(rest[stop - pos] == text@[stop as int]);
                }
                lemma_token_len(rest, (stop - pos) as nat);
                assert(rest.take(stop - pos) =~= text@.subrange(pos as int, stop as int));
            }
            match PitchParser::parse_pitch(text, pos, stop) {
                Err(e) => {
                    return Err(e);
                },
                Ok(p) => {
                    found.push(p);
                    if stop == n {
                        assert(front + seq![p] =~= found@);
                        return Ok(found);
                    }
                    let width: usize = if text[stop] == ' ' {
                        1
                    } else if stop + 1 < n && text[stop + 1] == ' ' {
                        2
                    } else {
                        0
                    };
                    proof {
                        if stop + 1 < n {
                            assert(rest[stop - pos + 1] == text@[stop + 1]);
                        }
                        assert(width == separator_len(rest, stop - pos));
                    }
                    if width == 0 {
                        return Err(ParsePitchError { kind: ErrorKind::Syntax });
                    }
                    proof {
                        assert(rest.skip(stop - pos + width) =~= text@.skip(stop + width));
                        let tail = pitches_of_text(text@.skip(stop + width));
                        assert(found@ =~= front + seq![p]);
                        if tail is Ok {
                            assert(front + (seq![p] + tail->Ok_0) =~= (front + seq![p]) + tail->Ok_0);
                        }
                    }
                    pos = stop + width;
                },
            }
        }
    }
}

} // verus!
