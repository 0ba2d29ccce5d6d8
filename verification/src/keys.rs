//! Sample-key extraction and normalization.
//!
//! A raw sample directory name contains the marker `Sample`, a decimal
//! sample number, and an underscore-delimited suffix.  The padded form
//! writes numbers below ten with a leading zero so that lexicographic
//! order equals numeric order; the unpadded form drops that zero for
//! display.

use vstd::prelude::*;

use crate::errors::MyError;
use crate::strutil::{
    all_digits, digit_char_of, digits_value, find_sub, first_occur, is_digit_char, occurs_at,
    lemma_digit_char_of, lemma_first_occur_bounds, lemma_first_occur_iff,
    lemma_single_digit_value, parse_u32, parses_to_u32,
};

verus! {

// ---------------------------------------------------------------------------
// Splitting a raw name into its parts
// ---------------------------------------------------------------------------

/// The fragment after the first `Sample` marker and before the first
/// following underscore, together with the suffix after that underscore.
pub open spec fn key_parts(s: Seq<char>) -> Option<(Seq<char>, Seq<char>)> {
    match first_occur(s, "Sample"@) {
        None => None,
        Some(i) => {
            let rest = s.skip(i + "Sample"@.len() as int);
            match first_occur(rest, "_"@) {
                None => None,
                Some(j) => Some((rest.take(j), rest.skip(j + "_"@.len() as int))),
            }
        },
    }
}

/// As `key_parts`, with the fragment strictly parsed as a decimal `u32`.
pub open spec fn key_num_parts(s: Seq<char>) -> Option<(u32, Seq<char>, Seq<char>)> {
    match key_parts(s) {
        None => None,
        Some((frag, sfx)) => if parses_to_u32(frag) {
            Some((digits_value(frag) as u32, frag, sfx))
        } else {
            None
        },
    }
}

/// The padded rendering of a valid raw name: numbers below ten gain a
/// leading zero, all other names are left unchanged.
pub open spec fn pad_spec(s: Seq<char>) -> Option<Seq<char>> {
    match key_num_parts(s) {
        None => None,
        Some((n, frag, sfx)) => if n < 10 {
            Some("Sample0"@ + seq![digit_char_of(n as int)] + "_"@ + sfx)
        } else {
            Some(s)
        },
    }
}

/// The unpadded rendering of a valid raw name: numbers below ten are
/// written without a leading zero, all other names are left unchanged.
pub open spec fn unpad_spec(s: Seq<char>) -> Option<Seq<char>> {
    match key_num_parts(s) {
        None => None,
        Some((n, frag, sfx)) => if n < 10 {
            Some("Sample"@ + seq![digit_char_of(n as int)] + "_"@ + sfx)
        } else {
            Some(s)
        },
    }
}

/// Splits a raw sample name into the number fragment after the first
/// `Sample` marker and the suffix after the following underscore.
pub fn sample_name_parts(s: &str) -> (r: Result<(String, String), MyError>)
    ensures
        match r {
            Ok(p) => key_parts(s@) == Some((p.0@, p.1@)),
            Err(e) => key_parts(s@) is None && e == MyError::InvalidFileName,
        },
{
    proof {
        reveal_strlit("Sample");
        reveal_strlit("_");
    }
    let n = s.unicode_len();
    let i = match find_sub(s, "Sample") {
        Some(i) => i,
        None => {
            return Err(MyError::InvalidFileName);
        },
    };
    proof {
        lemma_first_occur_bounds(s@, "Sample"@);
    }
    let m = "Sample".unicode_len();
    let rest = s.substring_char(i + m, n);
    proof {
        assert(rest@ =~= s@.skip(i + "Sample"@.len() as int));
    }
    let rn = rest.unicode_len();
    let j = match find_sub(rest, "_") {
        Some(j) => j,
        None => {
            return Err(MyError::InvalidFileName);
        },
    };
    proof {
        lemma_first_occur_bounds(rest@, "_"@);
    }
    let u = "_".unicode_len();
    let frag = rest.substring_char(0, j);
    let sfx = rest.substring_char(j + u, rn);
    proof {
        assert(frag@ =~= rest@.take(j as int));
        assert(sfx@ =~= rest@.skip(j + "_"@.len() as int));
    }
    Ok((String::from_str(frag), String::from_str(sfx)))
}

/// Strictly parses the number fragment of a sample name.
pub fn sample_num(num_part: &str) -> (r: Result<u32, MyError>)
    ensures
        match r {
            Ok(v) => parses_to_u32(num_part@) && v == digits_value(num_part@),
            Err(e) => !parses_to_u32(num_part@) && e == MyError::InvalidFileName,
        },
{
    match parse_u32(num_part) {
        Some(v) => Ok(v),
        None => Err(MyError::InvalidFileName),
    }
}

/// Rewrites a raw sample name so that sample numbers below ten carry a
/// leading zero, making lexicographic order match numeric order.
pub fn zero_pad_dir(s: String) -> (r: Result<String, MyError>)
    ensures
        match r {
            Ok(t) => pad_spec(s@) == Some(t@),
            Err(e) => pad_spec(s@) is None && e == MyError::InvalidFileName,
        },
{
    let (frag, sfx) = match sample_name_parts(s.as_str()) {
        Ok(p) => p,
        Err(e) => {
            return Err(e);
        },
    };
    let n = match sample_num(frag.as_str()) {
        Ok(n) => n,
        Err(e) => {
            return Err(e);
        },
    };
    if n >= 10 {
        Ok(s)
    } else {
        proof {
            lemma_single_digit_value(frag@);
        }
        let fl = frag.as_str().unicode_len();
        let mut out = String::from_str("Sample0");
        out.append(frag.as_str().substring_char(fl - 1, fl));
        out.append("_");
        out.append(sfx.as_str());
        proof {
            assert(frag@.subrange(fl - 1, fl as int) =~= seq![frag@.last()]);
            assert(out@ =~= "Sample0"@ + seq![digit_char_of(n as int)] + "_"@ + sfx@);
        }
        Ok(out)
    }
}

/// Rewrites a raw sample name without the leading zero, for display.
pub fn remove_zero_pad_from_dir(s: String) -> (r: Result<String, MyError>)
    ensures
        match r {
            Ok(t) => unpad_spec(s@) == Some(t@),
            Err(e) => unpad_spec(s@) is None && e == MyError::InvalidFileName,
        },
{
    let (frag, sfx) = match sample_name_parts(s.as_str()) {
        Ok(p) => p,
        Err(e) => {
            return Err(e);
        },
    };
    let n = match sample_num(frag.as_str()) {
        Ok(n) => n,
        Err(e) => {
            return Err(e);
        },
    };
    if n >= 10 {
        Ok(s)
    } else {
        proof {
            lemma_single_digit_value(frag@);
        }
        let fl = frag.as_str().unicode_len();
        let mut out = String::from_str("Sample");
        out.append(frag.as_str().substring_char(fl - 1, fl));
        out.append("_");
        out.append(sfx.as_str());
        proof {
            assert(frag@.subrange(fl - 1, fl as int) =~= seq![frag@.last()]);
            assert(out@ =~= "Sample"@ + seq![digit_char_of(n as int)] + "_"@ + sfx@);
        }
        Ok(out)
    }
}

// ---------------------------------------------------------------------------
// Name handling for per-read report files
// ---------------------------------------------------------------------------

/// The sample-name fragment of a vendor-style report file name: the text
/// between the `Sample` marker and the first underscore of the whole name.
pub open spec fn sample_name_spec(s: Seq<char>) -> Option<Seq<char>> {
    match first_occur(s, "_"@) {
        None => None,
        Some(k) => {
            let head = s.take(k);
            match first_occur(head, "Sample"@) {
                None => None,
                Some(m) => {
                    let frag = head.skip(m + "Sample"@.len() as int);
                    if frag.len() == 0 {
                        None
                    } else {
                        Some(frag)
                    }
                },
            }
        },
    }
}

/// Gets the sample-name fragment from a vendor-style report file name.
pub fn sample_name(filename: &str) -> (r: Result<String, MyError>)
    ensures
        match r {
            Ok(t) => sample_name_spec(filename@) == Some(t@),
            Err(e) => sample_name_spec(filename@) is None && e == MyError::InvalidFileName,
        },
{
    proof {
        reveal_strlit("Sample");
        reveal_strlit("_");
    }
    let k = match find_sub(filename, "_") {
        Some(k) => k,
        None => {
            return Err(MyError::InvalidFileName);
        },
    };
    proof {
        lemma_first_occur_bounds(filename@, "_"@);
    }
    let head = filename.substring_char(0, k);
    proof {
        assert(head@ =~= filename@.take(k as int));
    }
    let m = match find_sub(head, "Sample") {
        Some(m) => m,
        None => {
            return Err(MyError::InvalidFileName);
        },
    };
    proof {
        lemma_first_occur_bounds(head@, "Sample"@);
    }
    let w = "Sample".unicode_len();
    let hn = head.unicode_len();
    let frag = head.substring_char(m + w, hn);
    proof {
        assert(frag@ =~= head@.skip(m + "Sample"@.len() as int));
    }
    if frag.unicode_len() == 0 {
        return Err(MyError::InvalidFileName);
    }
    Ok(String::from_str(frag))
}

/// The numeric sample key of a report file name, strictly parsed.
pub open spec fn sample_number_spec(s: Seq<char>) -> Option<u16> {
    match sample_name_spec(s) {
        None => None,
        Some(frag) => if frag.len() > 0 && all_digits(frag) && digits_value(frag) <= u16::MAX {
            Some(digits_value(frag) as u16)
        } else {
            None
        },
    }
}

/// Extracts the numeric sample key from a report file name.  The name must
/// carry the `Sample` marker and a decimal number that fits in a `u16`.
pub fn sample_number(filename: &str) -> (r: Result<u16, MyError>)
    ensures
        match r {
            Ok(v) => sample_number_spec(filename@) == Some(v),
            Err(e) => sample_number_spec(filename@) is None && e == MyError::InvalidFileName,
        },
{
    let frag = match sample_name(filename) {
        Ok(t) => t,
        Err(e) => {
            return Err(e);
        },
    };
    match parse_u32(frag.as_str()) {
        Some(v) => {
            if v <= u16::MAX as u32 {
                Ok(v as u16)
            } else {
                Err(MyError::InvalidFileName)
            }
        },
        None => Err(MyError::InvalidFileName),
    }
}

/// The base directory name of a sample: everything before the first
/// `_fastqc` marker, or the whole name when the marker is absent.
pub open spec fn dirname_spec(s: Seq<char>) -> Seq<char> {
    match first_occur(s, "_fastqc"@) {
        None => s,
        Some(i) => s.take(i),
    }
}

/// Gets the raw sample name for a report directory from its base name.
pub fn dirname(base_name: &str) -> (r: String)
    ensures
        r@ == dirname_spec(base_name@),
{
    proof {
        reveal_strlit("_fastqc");
    }
    match find_sub(base_name, "_fastqc") {
        None => String::from_str(base_name),
        Some(i) => {
            proof {
                lemma_first_occur_bounds(base_name@, "_fastqc"@);
            }
            let head = base_name.substring_char(0, i);
            proof {
                assert(head@ =~= base_name@.take(i as int));
            }
            String::from_str(head)
        },
    }
}

/// The read indicator of a per-read report directory: the last character
/// before the `_001_fastq` marker (or of the whole name when the marker
/// is absent), if any.
pub open spec fn read_number_spec(s: Seq<char>) -> Option<char> {
    let head = match first_occur(s, "_001_fastq"@) {
        None => s,
        Some(i) => s.take(i),
    };
    if head.len() == 0 {
        None
    } else {
        Some(head.last())
    }
}

/// Gets the read indicator from a per-read report directory name.  Read
/// one and read two carry the same sample metadata, so a scanner keeps
/// only the directories whose indicator is `'1'`.
pub fn read_number_from_dir(name: &str) -> (r: Option<char>)
    ensures
        r == read_number_spec(name@),
{
    proof {
        reveal_strlit("_001_fastq");
    }
    let head = match find_sub(name, "_001_fastq") {
        None => name,
        Some(i) => {
            proof {
                lemma_first_occur_bounds(name@, "_001_fastq"@);
            }
            name.substring_char(0, i)
        },
    };
    let hn = head.unicode_len();
    if hn == 0 {
        None
    } else {
        Some(head.get_char(hn - 1))
    }
}

// ---------------------------------------------------------------------------
// Laws of the key normalizer
// ---------------------------------------------------------------------------

/// Splitting a rendered name `Sample<frag>_<suffix>` recovers the digit
/// fragment and the suffix exactly.
proof fn lemma_key_parts_of_rendered(frag: Seq<char>, sfx: Seq<char>)
    requires
        frag.len() > 0,
        all_digits(frag),
    ensures
        key_parts("Sample"@ + frag + "_"@ + sfx) == Some((frag, sfx)),
{
    reveal_strlit("Sample");
    reveal_strlit("_");
    let s = "Sample"@ + frag + "_"@ + sfx;
    assert(s.subrange(0, "Sample"@.len() as int) =~= "Sample"@);
    assert(occurs_at(s, "Sample"@, 0));
    assert(first_occur(s, "Sample"@) == Some(0int));
    let rest = s.skip("Sample"@.len() as int);
    assert(rest =~= frag + "_"@ + sfx);
    let fl = frag.len() as int;
    assert(rest.subrange(fl, fl + 1) =~= "_"@);
    assert(occurs_at(rest, "_"@, fl));
    lemma_first_occur_iff(rest, "_"@);
    assert forall|j: int| 0 <= j < fl implies !occurs_at(rest, "_"@, j) by {
        if occurs_at(rest, "_"@, j) {
            assert(rest.subrange(j, j + 1)[0] == rest[j]);
            assert(rest[j] == frag[j]);
            assert(is_digit_char(frag[j]));
            assert(rest[j] == '_');
        }
    }
    match first_occur(rest, "_"@) {
        None => {
            assert(!occurs_at(rest, "_"@, fl));
        },
        Some(i) => {
            if i < fl {
                assert(!occurs_at(rest, "_"@, i));
            }
            if i > fl {
                assert(!occurs_at(rest, "_"@, fl));
            }
            assert(i == fl);
        },
    }
    assert(rest.take(fl) =~= frag);
    assert(rest.skip(fl + "_"@.len() as int) =~= sfx);
}

/// For every raw name of the form `Sample<N>_<suffix>` with `<N>` a
/// non-empty decimal fragment whose value fits in a `u32` and a non-empty
/// suffix, key extraction succeeds and round-trips the number and the
/// suffix exactly.
pub proof fn lemma_key_round_trip(frag: Seq<char>, sfx: Seq<char>)
    requires
        frag.len() > 0,
        all_digits(frag),
        digits_value(frag) <= u32::MAX,
        sfx.len() > 0,
    ensures
        key_num_parts("Sample"@ + frag + "_"@ + sfx) == Some(
            (digits_value(frag) as u32, frag, sfx),
        ),
{
    lemma_key_parts_of_rendered(frag, sfx);
}

/// The value of a one-digit fragment is the digit itself.
proof fn lemma_single_digit_seq(n: int)
    requires
        0 <= n <= 9,
    ensures
        all_digits(seq![digit_char_of(n)]),
        digits_value(seq![digit_char_of(n)]) == n,
{
    lemma_digit_char_of(n);
    let d = seq![digit_char_of(n)];
    assert(d.drop_last() =~= Seq::<char>::empty());
    assert(digits_value(d) == digits_value(d.drop_last()) * 10 + n);
}

/// Padding after unpadding yields the same name as padding directly:
/// `pad(unpad(k)) == pad(k)` for every valid key `k`.
pub proof fn lemma_pad_after_unpad(s: Seq<char>)
    requires
        key_num_parts(s) is Some,
    ensures
        unpad_spec(s) is Some,
        pad_spec(unpad_spec(s)->0) == pad_spec(s),
{
    let (n, frag, sfx) = key_num_parts(s)->0;
    if n < 10 {
        let d = digit_char_of(n as int);
        lemma_single_digit_seq(n as int);
        lemma_key_parts_of_rendered(seq![d], sfx);
        let u = unpad_spec(s)->0;
        assert(u == "Sample"@ + seq![d] + "_"@ + sfx);
        assert(key_num_parts(u) == Some((n, seq![d], sfx)));
    }
}

/// For a sample number below ten, padding a rendered raw name
/// `Sample<N>_<suffix>` inserts a leading zero after the marker.
pub proof fn lemma_pad_small(n: u32, sfx: Seq<char>)
    requires
        n < 10,
    ensures
        pad_spec("Sample"@ + seq![digit_char_of(n as int)] + "_"@ + sfx) == Some(
            "Sample0"@ + seq![digit_char_of(n as int)] + "_"@ + sfx,
        ),
{
    let d = digit_char_of(n as int);
    lemma_single_digit_seq(n as int);
    lemma_key_parts_of_rendered(seq![d], sfx);
}

/// For a sample number of ten or more, padding leaves the name unchanged.
pub proof fn lemma_pad_large_identity(s: Seq<char>)
    requires
        key_num_parts(s) is Some,
        (key_num_parts(s)->0).0 >= 10,
    ensures
        pad_spec(s) == Some(s),
{
}

} // verus!
