//! Case-preserving replacement of every case-insensitive `happy` by `silly`.
use vstd::prelude::*;

verus! {

/// The ASCII lower-case form of a byte; other bytes are kept.
pub open spec fn ascii_lower(b: u8) -> u8 {
    if 65 <= b <= 90 {
        (b + 32) as u8
    } else {
        b
    }
}

/// Whether a byte is an ASCII upper-case letter.
pub open spec fn is_upper(b: u8) -> bool {
    65 <= b <= 90
}

/// Byte `j` of the word searched for, `happy`.
pub open spec fn target_byte(j: int) -> u8 {
    if j == 0 {
        104u8
    } else if j == 1 {
        97u8
    } else if j == 4 {
        121u8
    } else {
        112u8
    }
}

/// Byte `j` of the replacement word, `silly`.
pub open spec fn replacement_byte(j: int) -> u8 {
    if j == 0 {
        115u8
    } else if j == 1 {
        105u8
    } else if j == 4 {
        121u8
    } else {
        108u8
    }
}

/// Whether `happy` occurs at index `i` of `s`, ignoring ASCII case.
pub open spec fn word_at(s: Seq<u8>, i: int) -> bool {
    &&& 0 <= i
    &&& i + 5 <= s.len()
    &&& ascii_lower(s[i]) == 104
    &&& ascii_lower(s[i + 1]) == 97
    &&& ascii_lower(s[i + 2]) == 112
    &&& ascii_lower(s[i + 3]) == 112
    &&& ascii_lower(s[i + 4]) == 121
}

/// The replacement byte `rep`, made upper case where `orig` is.
pub open spec fn mirror_case(orig: u8, rep: u8) -> u8 {
    if is_upper(orig) {
        (rep - 32) as u8
    } else {
        rep
    }
}

/// Whether index `k` of `s` lies inside an occurrence of the word.
pub open spec fn covered(s: Seq<u8>, k: int) -> bool {
    word_at(s, k) || word_at(s, k - 1) || word_at(s, k - 2) || word_at(s, k - 3) || word_at(
        s,
        k - 4,
    )
}

/// Byte `k` after substitution: inside an occurrence starting at `k - d` it is
/// byte `d` of `silly` in the case of the original byte; elsewhere it is kept.
pub open spec fn substituted_byte(s: Seq<u8>, k: int) -> u8 {
    if word_at(s, k) {
        mirror_case(s[k], replacement_byte(0))
    } else if word_at(s, k - 1) {
        mirror_case(s[k], replacement_byte(1))
    } else if word_at(s, k - 2) {
        mirror_case(s[k], replacement_byte(2))
    } else if word_at(s, k - 3) {
        mirror_case(s[k], replacement_byte(3))
    } else if word_at(s, k - 4) {
        mirror_case(s[k], replacement_byte(4))
    } else {
        s[k]
    }
}

/// `s` with every occurrence of the word replaced.
pub open spec fn substituted(s: Seq<u8>) -> Seq<u8> {
    Seq::new(s.len(), |k: int| substituted_byte(s, k))
}

/// Whether `r` lists, left to right and without overlap, the byte ranges of
/// all occurrences of the word in `hay`.
pub open spec fn lists_all_words(hay: Seq<u8>, r: Seq<(usize, usize)>) -> bool {
    &&& forall|m: int|
        0 <= m < r.len() ==> #[trigger] r[m].1 == r[m].0 + 5 && word_at(hay, r[m].0 as int)
    &&& forall|m: int, n: int| 0 <= m < n < r.len() ==> #[trigger] r[m].1 <= #[trigger] r[n].0
    &&& forall|i: int| #[trigger] word_at(hay, i) ==> exists|m: int| 0 <= m < r.len() && r[m].0 == i
}

/// Relies on `regex::bytes::Regex::new` and `Regex::find_iter`: the pattern
/// `(?i)happy` is valid, and its matches are, left to right and without
/// overlap, the five-byte stretches equal to `happy` up to case (the case
/// folding of these letters is ASCII only, and the word cannot overlap itself).
#[verifier::external_body]
fn find_words(pattern: &str, hay: &[u8]) -> (r: Vec<(usize, usize)>)
    requires
        pattern@ == seq!['(', '?', 'i', ')', 'h', 'a', 'p', 'p', 'y'],
    ensures
        lists_all_words(hay@, r@),
{
    let re = regex::bytes::Regex::new(pattern).unwrap();
    re.find_iter(hay).map(|m| (m.start(), m.end())).collect()
}

/// The replacement byte `rep` (a lower-case letter), upper-cased where `orig` is
/// an upper-case letter.
fn mirror_case_exec(orig: u8, rep: u8) -> (r: u8)
    requires
        97 <= rep <= 122,
    ensures
        r == mirror_case(orig, rep),
{
    if 65 <= orig && orig <= 90 {
        rep - 32
    } else {
        rep
    }
}

/// Writes `silly` over the five bytes from `st`, in the case of the bytes there.
fn overwrite_at(s: &mut [u8], st: usize)
    requires
        st + 5 <= old(s)@.len(),
    ensures
        final(s)@.len() == old(s)@.len(),
        forall|k: int|
            0 <= k < old(s)@.len() ==> #[trigger] final(s)@[k] == if st <= k < st + 5 {
                mirror_case(old(s)@[k], replacement_byte(k - st))
            } else {
                old(s)@[k]
            },
{
    let b0 = mirror_case_exec(s[st], 115);
    s[st] = b0;
    let b1 = mirror_case_exec(s[st + 1], 105);
    s[st + 1] = b1;
    let b2 = mirror_case_exec(s[st + 2], 108);
    s[st + 2] = b2;
    let b3 = mirror_case_exec(s[st + 3], 108);
    s[st + 3] = b3;
    let b4 = mirror_case_exec(s[st + 4], 121);
    s[st + 4] = b4;
}

/// A byte that lies before the next listed occurrence and at or after the end
/// of the previous one lies in no occurrence.
proof fn lemma_between_words(s: Seq<u8>, r: Seq<(usize, usize)>, m: int, k: int)
    requires
        lists_all_words(s, r),
        0 <= m <= r.len(),
        0 <= k < s.len(),
        m > 0 ==> r[m - 1].1 <= k,
        m < r.len() ==> k < r[m].0,
    ensures
        !covered(s, k),
        substituted_byte(s, k) == s[k],
{
    assert forall|i: int| k - 4 <= i <= k && #[trigger] word_at(s, i) implies false by {
        let p = choose|p: int| 0 <= p < r.len() && r[p].0 == i;
        if p < m {
            if p < m - 1 {
                assert(r[p].1 <= r[m - 1].0);
            }
            assert(r[p].1 == r[p].0 + 5);
            assert(r[m - 1].1 == r[m - 1].0 + 5);
        } else if p > m {
            assert(r[m].1 <= r[p].0);
        }
    }
}

/// Replaces, in place, every occurrence of `happy` (in any mix of case) by
/// `silly`, giving each replacement byte the case of the byte it replaces.
/// Occurrences are all found in the original bytes before any is replaced.
pub fn happy_silly_sub(s: &mut [u8])
    ensures
        final(s)@ == substituted(old(s)@),
{
    let ghost orig = s@;
    let pattern = "(?i)happy";
    proof {
        reveal_strlit("(?i)happy");
        assert(pattern@ =~= seq!['(', '?', 'i', ')', 'h', 'a', 'p', 'p', 'y']);
    }
    let r = find_words(pattern, s);
    if r.len() == 0 {
        proof {
            assert forall|k: int| 0 <= k < orig.len() implies substituted(orig)[k] == orig[k] by {
                lemma_between_words(orig, r@, 0, k);
            }
            assert(substituted(orig) =~= orig);
        }
        return;
    }
    let mut m: usize = 0;
    while m < r.len()
        invariant
            0 <= m <= r.len(),
            lists_all_words(orig, r@),
            s@.len() == orig.len(),
            forall|k: int|
                (if m == 0 { 0 } else { r@[m - 1].1 as int }) <= k < orig.len() ==> #[trigger] s@[k]
                    == orig[k],
            forall|k: int|
                0 <= k < (if m == 0 { 0 } else { r@[m - 1].1 as int }) ==> #[trigger] s@[k]
                    == substituted_byte(orig, k),
        decreases r.len() - m,
    {
        let st = r[m].0;
        assert(r@[m as int].1 == r@[m as int].0 + 5 && word_at(orig, r@[m as int].0 as int));
        let ghost lim: int = if m == 0 { 0 } else { r@[m - 1].1 as int };
        proof {
            if m > 0 {
                assert(r@[m - 1].1 <= r@[m as int].0);
            }
        }
        let ghost before = s@;
        overwrite_at(s, st);
        proof {
            assert forall|k: int| 0 <= k < r@[m as int].1 implies #[trigger] s@[k]
                == substituted_byte(orig, k) by {
                if k < lim {
                } else if k < st {
                    lemma_between_words(orig, r@, m as int, k);
                } else {
                    let d = k - st;
                    assert forall|i: int| st < i <= k implies !#[trigger] word_at(orig, i) by {
                        if word_at(orig, i) {
                            lemma_words_apart(orig, st as int, i);
                        }
                    }
                    assert(word_at(orig, k - d));
                }
            }
        }
        m = m + 1;
    }
    proof {
        let lim = r@[m - 1].1 as int;
        assert forall|k: int| 0 <= k < orig.len() implies s@[k] == substituted(orig)[k] by {
            if k >= lim {
                lemma_between_words(orig, r@, m as int, k);
            }
        }
        assert(s@ =~= substituted(orig));
    }
}

/// Two occurrences of the word never overlap.
pub proof fn lemma_words_apart(s: Seq<u8>, i: int, j: int)
    requires
        word_at(s, i),
        word_at(s, j),
        i < j,
    ensures
        i + 5 <= j,
{
}

/// Lower-casing a replacement byte put in the case of any byte gives the
/// replacement byte back.
proof fn lemma_lower_mirror(orig: u8, rep: u8)
    requires
        97 <= rep <= 122,
    ensures
        ascii_lower(mirror_case(orig, rep)) == rep,
{
}

/// A buffer with no occurrence of the word is left as it is.
pub proof fn lemma_no_word_unchanged(s: Seq<u8>)
    requires
        forall|i: int| !#[trigger] word_at(s, i),
    ensures
        substituted(s) == s,
{
    assert(substituted(s) =~= s);
}

/// Every occurrence of the word in the original is replaced: its five bytes
/// become `silly`, each in the case of the byte it replaces.
pub proof fn lemma_word_replaced(s: Seq<u8>, i: int, j: int)
    requires
        word_at(s, i),
        0 <= j < 5,
    ensures
        substituted(s)[i + j] == mirror_case(s[i + j], replacement_byte(j)),
        ascii_lower(substituted(s)[i + j]) == replacement_byte(j),
{
    assert forall|c: int| i < c <= i + j implies !#[trigger] word_at(s, c) by {
        if word_at(s, c) {
            lemma_words_apart(s, i, c);
        }
    }
    lemma_lower_mirror(s[i + j], replacement_byte(j));
}

/// A byte that lies in no occurrence of the word is kept.
pub proof fn lemma_other_bytes_kept(s: Seq<u8>, k: int)
    requires
        0 <= k < s.len(),
        !covered(s, k),
    ensures
        substituted(s)[k] == s[k],
{
}

/// Substitution leaves no occurrence of the word behind: the replacements
/// form none, alone or with the bytes around them.
pub proof fn lemma_no_word_after(s: Seq<u8>, i: int)
    ensures
        !word_at(substituted(s), i),
{
    let t = substituted(s);
    if word_at(t, i) {
        assert forall|k: int| 0 <= k < s.len() && #[trigger] covered(s, k) implies ascii_lower(t[k])
            == 115 || ascii_lower(t[k]) == 105 || ascii_lower(t[k]) == 108 || ascii_lower(t[k])
            == 121 by {
            lemma_lower_mirror(s[k], 115);
            lemma_lower_mirror(s[k], 105);
            lemma_lower_mirror(s[k], 108);
            lemma_lower_mirror(s[k], 121);
        }
        assert(!covered(s, i));
        assert(!covered(s, i + 1)) by {
            if word_at(s, i + 1) {
                lemma_word_replaced(s, i + 1, 0);
            }
        }
        assert(!covered(s, i + 2)) by {
            if word_at(s, i + 1) {
                lemma_word_replaced(s, i + 1, 0);
            } else if word_at(s, i + 2) {
                lemma_word_replaced(s, i + 2, 0);
            }
        }
        assert(!covered(s, i + 3)) by {
            if word_at(s, i + 1) {
                lemma_word_replaced(s, i + 1, 0);
            } else if word_at(s, i + 2) {
                lemma_word_replaced(s, i + 2, 0);
            } else if word_at(s, i + 3) {
                lemma_word_replaced(s, i + 3, 0);
            }
        }
        assert(!covered(s, i + 4)) by {
            if word_at(s, i + 1) {
                lemma_word_replaced(s, i + 1, 0);
            } else if word_at(s, i + 2) {
                lemma_word_replaced(s, i + 2, 0);
            } else if word_at(s, i + 3) {
                lemma_word_replaced(s, i + 3, 0);
            } else if word_at(s, i + 4) {
                lemma_word_replaced(s, i + 4, 0);
            }
        }
        assert(word_at(s, i));
    }
}

} // verus!
