//! Shared basic types and helpers: card identifiers, the clock, and small
//! string utilities.

use vstd::prelude::*;

verus! {

/// A globally unique, immutable 128-bit identifier assigned when a card is
/// created. It is the join key across the review log, the location index and
/// the card cache.
#[derive(Clone, Copy, Debug, Hash, PartialEq, Eq, Structural)]
pub struct CardId(pub u128);

/// Relies on std::time::SystemTime::now; the duration since the unix epoch is
/// converted to whole seconds, and a clock before the epoch reads as zero.
/// Nothing can be promised about the value of a clock.
#[verifier::external_body]
pub fn current_time() -> u64 {
    std::time::SystemTime::now()
        .duration_since(std::time::SystemTime::UNIX_EPOCH)
        .map(|d| d.as_secs())
        .unwrap_or(0)
}

/// The std::time::SystemTime type, opaque to the verifier; values of it
/// only pass through to the conversion below.
#[verifier::external_type_specification]
#[verifier::external_body]
pub struct ExSystemTime(std::time::SystemTime);

/// Relies on SystemTime::duration_since: the seconds between the unix
/// epoch and the given instant; an instant before the epoch reads as zero.
#[verifier::external_body]
pub fn system_time_as_unix_time(time: std::time::SystemTime) -> u64 {
    time.duration_since(std::time::SystemTime::UNIX_EPOCH)
        .map(|d| d.as_secs())
        .unwrap_or(0)
}

/// What the filename sanitizer makes of a string: a function of the
/// characters alone.
pub uninterp spec fn sanitized_of(s: Seq<char>) -> Seq<char>;

/// Relies on sanitize_filename::sanitize_with_options, with fixed options
/// (portable rules rather than the host's, truncation on, deletion as the
/// replacement) so the result depends on the input characters alone.
/// Deleting and truncating never grow the string, and an empty name stays
/// empty.
#[verifier::external_body]
fn sanitize(s: &str) -> (r: String)
    ensures
        r@ == sanitized_of(s@),
        r@.len() <= s@.len(),
        s@.len() == 0 ==> r@.len() == 0,
{
    sanitize_filename::sanitize_with_options(
        s,
        sanitize_filename::Options { windows: false, truncate: true, replacement: "" },
    )
}

/// Spaces become underscores and apostrophes disappear; everything else
/// stays.
pub open spec fn underscored(s: Seq<char>) -> Seq<char>
    decreases s.len(),
{
    if s.len() == 0 {
        Seq::empty()
    } else {
        let head = underscored(s.drop_last());
        if s.last() == '\'' {
            head
        } else if s.last() == ' ' {
            head + seq!['_']
        } else {
            head + seq![s.last()]
        }
    }
}

/// A string made safe for use as a file name: spaces become underscores,
/// apostrophes are dropped, and the rest passes through the filename
/// sanitizer.
pub fn my_sanitize_filename(s: &str) -> (r: String)
    ensures
        r@ == sanitized_of(underscored(s@)),
{
    let n = s.unicode_len();
    let mut t = String::new();
    let mut i: usize = 0;
    while i < n
        invariant
            0 <= i <= n,
            n == s@.len(),
            t@ == underscored(s@.take(i as int)),
        decreases n - i,
    {
        let c = s.get_char(i);
        if c == '\'' {
        } else if c == ' ' {
            t.append("_");
            proof {
                reveal_strlit("_");
                assert("_"@ =~= seq!['_']);
            }
        } else {
            let piece = s.substring_char(i, i + 1);
            t.append(piece);
            proof {
                assert(piece@ =~= seq![s@[i as int]]);
            }
        }
        proof {
            assert(s@.take(i + 1).drop_last() =~= s@.take(i as int));
            assert(s@.take(i + 1).last() == s@[i as int]);
        }
        i += 1;
    }
    proof {
        assert(s@.take(n as int) =~= s@);
    }
    sanitize(t.as_str())
}

/// Safe way to truncate a string: keeps the first `max_len` characters.
pub fn truncate_string(input: String, max_len: usize) -> (result: String)
    ensures
        result@ == input@.take(vstd::math::min(max_len as int, input@.len() as int)),
{
    let len = input.as_str().unicode_len();
    let n = if max_len <= len {
        max_len
    } else {
        len
    };
    let s = input.as_str().substring_char(0, n);
    s.to_owned()
}

} // verus!
