use vstd::prelude::*;
use vstd::utf8::{encode_scalar, encode_utf8};
use crate::bits::BitSet;
use crate::part::cache_resp;
use crate::plan::class;
use crate::resp::{get_resp, response_index_of, response_to_index, words_valid, ResponseCache, B, G, N_RESPONSES, Y};
use crate::words::N_CHARS;

verus! {

broadcast use vstd::string::group_string_axioms;

/// What is wrong with a typed response.
#[derive(Debug, Clone, PartialEq, Eq)]
pub enum ResponseInputError {
    /// It is not five bytes long.
    BadLength,
    /// These characters are not B, Y or G (each once, in order of appearance).
    InvalidChars(Vec<char>),
}

/// The response byte a typed character stands for.
pub open spec fn resp_byte_of(c: char) -> Option<u8> {
    if c == 'B' {
        Some(B)
    } else if c == 'Y' {
        Some(Y)
    } else if c == 'G' {
        Some(G)
    } else {
        None
    }
}

/// The distinct characters of `s` that stand for no response, in order of first appearance.
pub open spec fn invalid_chars(s: Seq<char>) -> Seq<char>
    decreases s.len(),
{
    if s.len() == 0 {
        Seq::empty()
    } else {
        let prev = invalid_chars(s.drop_last());
        let c = s.last();
        if resp_byte_of(c) is None && !prev.contains(c) {
            prev.push(c)
        } else {
            prev
        }
    }
}

proof fn lemma_chars_le_bytes(s: Seq<char>)
    ensures
        s.len() <= encode_utf8(s).len(),
    decreases s.len(),
{
    if s.len() > 0 {
        lemma_chars_le_bytes(s.drop_first());
        assert(encode_scalar(s[0] as u32).len() >= 1);
    }
}

/// Reads a typed response such as "BGYBB" (already upper-cased): five bytes, each B, Y or G.
pub fn parse_response(input: &str) -> (r: Result<[u8; N_CHARS], ResponseInputError>)
    ensures
        encode_utf8(input@).len() != N_CHARS ==> r == Err::<[u8; N_CHARS], ResponseInputError>(ResponseInputError::BadLength),
        encode_utf8(input@).len() == N_CHARS ==> match r {
            Ok(resp) => {
                &&& invalid_chars(input@).len() == 0
                &&& input@.len() == N_CHARS
                &&& forall|i: int| 0 <= i < N_CHARS ==> resp_byte_of(#[trigger] input@[i]) == Some(resp@[i])
            },
            Err(ResponseInputError::InvalidChars(v)) => v@ == invalid_chars(input@) && v@.len() > 0,
            Err(ResponseInputError::BadLength) => false,
        },
{
    let bytes = input.as_bytes();
    if bytes.len() != N_CHARS {
        return Err(ResponseInputError::BadLength);
    }
    proof {
        lemma_chars_le_bytes(input@);
    }
    let mut resp_bytes = [0u8; N_CHARS];
    let mut invalid: Vec<char> = Vec::new();
    let mut i: usize = 0;
    assert(input@.take(0) =~= Seq::<char>::empty());
    for c in it: input.chars()
        invariant
            it.seq() == input@,
            i == it.index(),
            input@.len() <= N_CHARS,
            invalid@ == invalid_chars(input@.take(i as int)),
            forall|j: int| 0 <= j < i ==> (resp_byte_of(#[trigger] input@[j]) is Some ==> resp_byte_of(input@[j]) == Some(resp_bytes@[j])),
    {
        assert(c == input@[i as int]);
        proof {
            let t = input@.take(i + 1);
            assert(t.drop_last() =~= input@.take(i as int));
            assert(t.last() == c);
        }
        if c == 'B' {
            resp_bytes[i] = B;
        } else if c == 'Y' {
            resp_bytes[i] = Y;
        } else if c == 'G' {
            resp_bytes[i] = G;
        } else {
            let mut seen = false;
            let mut k: usize = 0;
            while k < invalid.len()
                invariant
                    k <= invalid@.len(),
                    seen == invalid@.take(k as int).contains(c),
                decreases invalid@.len() - k,
            {
                proof {
                    assert(invalid@.take(k + 1) =~= invalid@.take(k as int).push(invalid@[k as int]));
                    vstd::seq_lib::lemma_seq_contains_after_push(invalid@.take(k as int), invalid@[k as int], c);
                }
                if invalid[k] == c {
                    seen = true;
                }
                k += 1;
            }
            assert(invalid@.take(invalid@.len() as int) =~= invalid@);
            if !seen {
                invalid.push(c);
            }
        }
        i += 1;
    }
    assert(input@.take(input@.len() as int) =~= input@);
    if invalid.len() > 0 {
        return Err(ResponseInputError::InvalidChars(invalid));
    }
    proof {
        assert forall|j: int| 0 <= j < input@.len() implies resp_byte_of(#[trigger] input@[j]) is Some by {
            if resp_byte_of(input@[j]) is None {
                lemma_invalid_listed(input@, j);
            }
        }
        lemma_chars_count(input@);
    }
    Ok(resp_bytes)
}

proof fn lemma_invalid_listed(s: Seq<char>, j: int)
    requires
        0 <= j < s.len(),
        resp_byte_of(s[j]) is None,
    ensures
        invalid_chars(s).contains(s[j]),
    decreases s.len(),
{
    let prev = invalid_chars(s.drop_last());
    if j < s.len() - 1 {
        lemma_invalid_listed(s.drop_last(), j);
        assert(s.drop_last()[j] == s[j]);
        if !(resp_byte_of(s.last()) is None && !prev.contains(s.last())) {
        } else {
            vstd::seq_lib::lemma_seq_contains_after_push(prev, s.last(), s[j]);
        }
    } else {
        if !prev.contains(s.last()) {
            vstd::seq_lib::lemma_seq_contains_after_push(prev, s.last(), s[j]);
        }
    }
}

/// Characters that all stand for responses are single bytes.
proof fn lemma_chars_count(s: Seq<char>)
    requires
        forall|j: int| 0 <= j < s.len() ==> resp_byte_of(#[trigger] s[j]) is Some,
    ensures
        encode_utf8(s).len() == s.len(),
    decreases s.len(),
{
    if s.len() > 0 {
        assert(resp_byte_of(s[0]) is Some);
        lemma_chars_count(s.drop_first());
    }
}

/// Whether some remaining candidate would give the response `resp_idx` to the guess.
pub fn response_is_possible(
    guess: &[u8; N_CHARS],
    candidates: &BitSet,
    all_candidates: &[[u8; N_CHARS]],
    resp_idx: usize,
) -> (r: bool)
    requires
        candidates.wf(),
        candidates@.len() <= all_candidates@.len(),
        words_valid(all_candidates@),
        crate::words::is_letter_word(guess@),
    ensures
        r == exists|c: int| #[trigger] candidates.members().contains(c) && response_index_of(*guess, all_candidates@[c]) == resp_idx,
{
    let n = candidates.len();
    let mut c_idx: usize = 0;
    while c_idx < n
        invariant
            n == candidates@.len(),
            candidates.wf(),
            n <= all_candidates@.len(),
            words_valid(all_candidates@),
            crate::words::is_letter_word(guess@),
            c_idx <= n,
            forall|c: int| 0 <= c < c_idx && #[trigger] candidates.members().contains(c) ==> response_index_of(*guess, all_candidates@[c]) != resp_idx,
        decreases n - c_idx,
    {
        if candidates.get(c_idx) {
            let cand = &all_candidates[c_idx];
            assert(crate::words::is_letter_word(all_candidates@[c_idx as int]@));
            let calculated = get_resp(guess, cand);
            if response_to_index(&calculated) == resp_idx {
                assert(candidates.members().contains(c_idx as int));
                return true;
            }
        }
        c_idx += 1;
    }
    proof {
        candidates.lemma_members_finite();
    }
    false
}

/// The candidates that give the response `resp_idx` to guess `guess_idx`.
pub fn filter_candidates(current: &BitSet, response_cache: &ResponseCache, guess_idx: usize, resp_idx: usize) -> (r: BitSet)
    requires
        current.wf(),
        response_cache.wf(),
        current@.len() == response_cache.spec_stride(),
        guess_idx < response_cache.n_rows(),
        current@.len() <= usize::MAX - 63,
    ensures
        r.wf(),
        r@.len() == current@.len(),
        r.members() == class(cache_resp(*response_cache), current.members(), guess_idx as int, resp_idx as int),
{
    let n = current.len();
    let mut next_candidates = BitSet::new(n);
    let cache_row = response_cache.get_row(guess_idx);
    let mut c_idx: usize = 0;
    while c_idx < n
        invariant
            n == current@.len(),
            current.wf(),
            next_candidates.wf(),
            next_candidates@.len() == n,
            cache_row@.len() == response_cache.spec_stride(),
            n == response_cache.spec_stride(),
            forall|c: int| 0 <= c < n ==> #[trigger] cache_row@[c] == response_cache.resp_at(guess_idx as int, c),
            c_idx <= n,
            forall|c: int| 0 <= c < n ==> #[trigger] next_candidates@[c] == (c < c_idx && current@[c]
                && response_cache.resp_at(guess_idx as int, c) == resp_idx),
        decreases n - c_idx,
    {
        if current.get(c_idx) && cache_row[c_idx] as usize == resp_idx {
            next_candidates.set(c_idx, true);
        }
        c_idx += 1;
    }
    proof {
        current.lemma_members_finite();
        assert(next_candidates.members() =~= class(cache_resp(*response_cache), current.members(), guess_idx as int, resp_idx as int));
    }
    next_candidates
}

} // verus!
