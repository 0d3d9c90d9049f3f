use vstd::prelude::*;
use vstd::utf8::{decode_utf8, encode_utf8, encode_utf8_decode_utf8, valid_utf8};
use vstd::string::StringSliceAdditionalSpecFns;

verus! {

broadcast use vstd::string::group_string_axioms;

pub const N_CHARS: usize = 5;

pub const N_LETTERS: usize = 26;

/// An upper-case ASCII letter.
pub open spec fn is_letter(c: u8) -> bool {
    65 <= c <= 90
}

/// A word of upper-case ASCII letters.
pub open spec fn is_letter_word(w: Seq<u8>) -> bool {
    forall|i: int| 0 <= i < w.len() ==> is_letter(#[trigger] w[i])
}

/// Checks if a given byte is a letter (A-Z).
pub fn is_letter_char(c: u8) -> (r: bool)
    ensures
        r == is_letter(c),
{
    (c >= 65u8) && (c <= 90u8)
}

/// Converts a letter byte (A-Z) to an index 0-25.
pub fn letter_to_index(c: u8) -> (r: usize)
    requires
        c >= 65,
    ensures
        r == c - 65,
{
    (c - 65u8) as usize
}

/// Unicode White_Space, the characters that separate words.
pub open spec fn is_ws(c: char) -> bool {
    let u = c as u32;
    ||| 0x09 <= u <= 0x0D
    ||| u == 0x20
    ||| u == 0x85
    ||| u == 0xA0
    ||| u == 0x1680
    ||| 0x2000 <= u <= 0x200A
    ||| u == 0x2028
    ||| u == 0x2029
    ||| u == 0x202F
    ||| u == 0x205F
    ||| u == 0x3000
}

/// `char::is_whitespace`.
fn is_whitespace_char(c: char) -> (r: bool)
    ensures
        r == is_ws(c),
{
    let u = c as u32;
    (0x09 <= u && u <= 0x0D) || u == 0x20 || u == 0x85 || u == 0xA0 || u == 0x1680 || (0x2000 <= u && u <= 0x200A)
        || u == 0x2028 || u == 0x2029 || u == 0x202F || u == 0x205F || u == 0x3000
}

/// The maximal runs of non-whitespace characters of `s`, in order.
pub open spec fn split_ws(s: Seq<char>) -> Seq<Seq<char>>
    decreases s.len(),
{
    if s.len() == 0 {
        Seq::empty()
    } else {
        let prev = split_ws(s.drop_last());
        let c = s.last();
        if is_ws(c) {
            prev
        } else if s.len() >= 2 && !is_ws(s[s.len() - 2]) {
            prev.update(prev.len() - 1, prev.last().push(c))
        } else {
            prev.push(seq![c])
        }
    }
}

/// The upper-case form of a string, as `str::to_uppercase` gives it.
pub uninterp spec fn uppercase_of(s: Seq<char>) -> Seq<char>;

/// `str::to_uppercase`: the string's upper-case equivalent, by the Unicode tables
/// (the same for the same string, whatever the locale).
#[verifier::external_body]
fn str_to_uppercase(s: &str) -> (r: String)
    ensures
        r@ == uppercase_of(s@),
{
    s.to_uppercase()
}

/// `String::push`: appends one character.
#[verifier::external_body]
fn string_push(s: &mut String, c: char)
    ensures
        final(s)@ == old(s)@.push(c),
{
    s.push(c);
}

/// Every character is an upper-case ASCII letter, `A` to `Z`.
pub open spec fn upper_letters(s: Seq<char>) -> bool {
    forall|i: int| 0 <= i < s.len() ==> 'A' <= #[trigger] s[i] <= 'Z'
}

/// A token makes a word: once upper-cased, `n` bytes long and made of the letters `A` to `Z`.
pub open spec fn word_ok(tok: Seq<char>, n: nat) -> bool {
    encode_utf8(uppercase_of(tok)).len() == n && upper_letters(uppercase_of(tok))
}

/// A string of letters `A` to `Z` takes one byte per letter.
pub proof fn lemma_letters_bytes(s: Seq<char>)
    requires
        upper_letters(s),
    ensures
        encode_utf8(s).len() == s.len(),
        forall|i: int| 0 <= i < s.len() ==> is_letter(#[trigger] encode_utf8(s)[i]),
{
    assert(vstd::utf8::is_ascii_chars(s)) by {
        assert forall|i: int| 0 <= i < s.len() implies '\0' <= #[trigger] s[i] <= '\u{7f}' by {
            assert('A' <= s[i] <= 'Z');
        }
    }
    vstd::utf8::is_ascii_chars_encode_utf8(s);
    assert forall|i: int| 0 <= i < s.len() implies is_letter(#[trigger] encode_utf8(s)[i]) by {
        assert(s[i] as u8 == encode_utf8(s)[i]);
        assert('A' <= s[i] <= 'Z');
    }
}

/// The upper-cased forms of the tokens that make words, each kept once, in order of
/// first appearance.
pub open spec fn parsed(toks: Seq<Seq<char>>, n: nat) -> Seq<Seq<char>>
    decreases toks.len(),
{
    if toks.len() == 0 {
        Seq::empty()
    } else {
        let prev = parsed(toks.drop_last(), n);
        let t = toks.last();
        if word_ok(t, n) && !prev.contains(uppercase_of(t)) {
            prev.push(uppercase_of(t))
        } else {
            prev
        }
    }
}

/// Appends the token's word to `words` when it makes one not yet there.
fn add_token(words: &mut Vec<String>, tok: &String, n_chars: usize)
    ensures
        views(final(words)@) == if word_ok(tok@, n_chars as nat) && !views(old(words)@).contains(uppercase_of(tok@)) {
            views(old(words)@).push(uppercase_of(tok@))
        } else {
            views(old(words)@)
        },
{
    let word_uppercase = str_to_uppercase(tok.as_str());
    let ghost up = word_uppercase@;
    let mut all_letters = true;
    // The number of letters, up to `n_chars`; `too_long` once there are more.
    let mut count: usize = 0;
    let mut too_long = false;
    for c in it: word_uppercase.as_str().chars()
        invariant
            it.seq() == up,
            up == uppercase_of(tok@),
            count <= n_chars,
            all_letters == forall|i: int| 0 <= i < it.index() ==> 'A' <= #[trigger] up[i] <= 'Z',
            all_letters ==> too_long == (it.index() > n_chars),
            all_letters && !too_long ==> count == it.index(),
    {
        assert(c == up[it.index()]);
        if !('A' <= c && c <= 'Z') {
            all_letters = false;
        }
        if all_letters {
            if count == n_chars {
                too_long = true;
            } else {
                count = count + 1;
            }
        }
    }
    if !all_letters {
        return;
    }
    proof {
        lemma_letters_bytes(up);
    }
    if too_long || count != n_chars {
        return;
    }
    let mut i: usize = 0;
    while i < words.len()
        invariant
            i <= words@.len(),
            up == word_uppercase@,
            up == uppercase_of(tok@),
            words@ == old(words)@,
            forall|j: int| 0 <= j < i ==> words@[j]@ != up,
        decreases words@.len() - i,
    {
        if words[i] == word_uppercase {
            proof {
                assert(views(words@)[i as int] == up);
            }
            return;
        }
        i += 1;
    }
    let ghost before = words@;
    words.push(word_uppercase);
    proof {
        assert(!views(before).contains(up)) by {
            if views(before).contains(up) {
                let j = choose|j: int| 0 <= j < views(before).len() && views(before)[j] == up;
                assert(before[j]@ == up);
            }
        }
        assert(views(words@) =~= views(before).push(up));
    }
}

/// The contents of the strings.
pub open spec fn views(ws: Seq<String>) -> Seq<Seq<char>> {
    Seq::new(ws.len(), |i: int| ws[i]@)
}

proof fn lemma_split_step(s: Seq<char>, i: int)
    requires
        0 <= i < s.len(),
    ensures
        split_ws(s.take(i + 1)) == {
            let prev = split_ws(s.take(i));
            let c = s[i];
            if is_ws(c) {
                prev
            } else if i >= 1 && !is_ws(s[i - 1]) {
                prev.update(prev.len() - 1, prev.last().push(c))
            } else {
                prev.push(seq![c])
            }
        },
{
    let t = s.take(i + 1);
    assert(t.drop_last() =~= s.take(i));
    assert(t.last() == s[i]);
    if i >= 1 {
        assert(t[t.len() - 2] == s[i - 1]);
    }
}

/// Parses a string of words into its distinct words of the given length, upper-cased
/// and made of letters, in order of first appearance.
pub fn parse_words(content: &str, n_chars: usize) -> (r: Vec<String>)
    ensures
        views(r@) == parsed(split_ws(content@), n_chars as nat),
{
    let mut valid_words: Vec<String> = Vec::new();
    let mut cur = String::new();
    let ghost mut done: Seq<Seq<char>> = Seq::empty();
    let ghost mut pos: int = 0;
    assert(content@.take(0) =~= Seq::<char>::empty());
    assert(views(valid_words@) =~= Seq::<Seq<char>>::empty());
    for c in it: content.chars()
        invariant
            it.seq() == content@,
            pos == it.index(),
            0 <= pos <= content@.len(),
            (cur@.len() > 0) == (pos > 0 && !is_ws(content@[pos - 1])),
            split_ws(content@.take(pos)) == if cur@.len() > 0 { done.push(cur@) } else { done },
            views(valid_words@) == parsed(done, n_chars as nat),
    {
        assert(c == content@[pos]);
        proof {
            lemma_split_step(content@, pos);
        }
        if is_whitespace_char(c) {
            if !cur.as_str().is_empty() {
                add_token(&mut valid_words, &cur, n_chars);
                proof {
                    let d0 = done;
                    done = done.push(cur@);
                    assert(done.drop_last() == d0);
                }
                cur = String::new();
            }
        } else {
            let ghost cur0 = cur@;
            string_push(&mut cur, c);
            proof {
                if cur0.len() > 0 {
                    let prev = done.push(cur0);
                    assert(prev.update(prev.len() - 1, prev.last().push(c)) =~= done.push(cur@));
                } else {
                    assert(cur@ =~= seq![c]);
                }
            }
        }
        proof {
            pos = pos + 1;
        }
    }
    if !cur.as_str().is_empty() {
        add_token(&mut valid_words, &cur, n_chars);
        proof {
            let d0 = done;
            done = done.push(cur@);
            assert(done.drop_last() == d0);
        }
    }
    assert(content@.take(content@.len() as int) =~= content@);
    valid_words
}

/// A five-byte word read as a base-256 number, first byte most significant: the order of
/// the ranks is the dictionary order of the words.
pub open spec fn word_rank(w: Seq<u8>) -> int {
    w[0] * 4294967296 + w[1] * 16777216 + w[2] * 65536 + w[3] * 256 + w[4]
}

/// The bytes of the arrays.
pub open spec fn arr_views(r: Seq<[u8; N_CHARS]>) -> Seq<Seq<u8>> {
    Seq::new(r.len(), |i: int| r[i]@)
}

/// The UTF-8 bytes of the strings.
pub open spec fn word_bytes(ws: Seq<String>) -> Seq<Seq<u8>> {
    Seq::new(ws.len(), |i: int| encode_utf8(ws[i]@))
}

fn rank_of(w: &[u8; N_CHARS]) -> (r: u64)
    ensures
        r == word_rank(w@),
{
    (w[0] as u64) * 4294967296 + (w[1] as u64) * 16777216 + (w[2] as u64) * 65536 + (w[3] as u64) * 256 + (w[4] as u64)
}

/// Converts equal-length strings to byte arrays, in dictionary order.
pub fn words_to_arr(words: &[String]) -> (r: Vec<[u8; N_CHARS]>)
    requires
        forall|i: int| 0 <= i < words@.len() ==> #[trigger] encode_utf8(words@[i]@).len() == N_CHARS,
    ensures
        arr_views(r@).to_multiset() == word_bytes(words@).to_multiset(),
        forall|a: int, b: int| 0 <= a < b < r@.len() ==> word_rank(#[trigger] r@[a]@) <= word_rank(#[trigger] r@[b]@),
{
    let mut data: Vec<[u8; N_CHARS]> = Vec::new();
    let mut ranks: Vec<u64> = Vec::new();
    let mut k: usize = 0;
    assert(word_bytes(words@).subrange(0, 0) =~= Seq::<Seq<u8>>::empty());
    assert(arr_views(data@) =~= Seq::<Seq<u8>>::empty());
    while k < words.len()
        invariant
            forall|i: int| 0 <= i < words@.len() ==> #[trigger] encode_utf8(words@[i]@).len() == N_CHARS,
            k <= words@.len(),
            arr_views(data@).to_multiset() == word_bytes(words@).subrange(0, k as int).to_multiset(),
            ranks@.len() == data@.len(),
            forall|t: int| 0 <= t < ranks@.len() ==> #[trigger] ranks@[t] == word_rank(data@[t]@),
            forall|a: int, b: int| 0 <= a < b < ranks@.len() ==> #[trigger] ranks@[a] <= #[trigger] ranks@[b],
        decreases words@.len() - k,
    {
        let bytes = words[k].as_str().as_bytes();
        assert(bytes@ == encode_utf8(words@[k as int]@));
        let fixed_arr: [u8; N_CHARS] = [bytes[0], bytes[1], bytes[2], bytes[3], bytes[4]];
        assert(fixed_arr@ =~= bytes@);
        let key = rank_of(&fixed_arr);
        let mut pos: usize = 0;
        while pos < ranks.len() && ranks[pos] <= key
            invariant
                pos <= ranks@.len(),
                forall|t: int| 0 <= t < pos ==> #[trigger] ranks@[t] <= key,
            decreases ranks@.len() - pos,
        {
            pos += 1;
        }
        let ghost old_data = data@;
        let ghost old_ranks = ranks@;
        data.insert(pos, fixed_arr);
        ranks.insert(pos, key);
        proof {
            assert(arr_views(data@) =~= arr_views(old_data).insert(pos as int, fixed_arr@));
            vstd::seq_lib::to_multiset_insert(arr_views(old_data), pos as int, fixed_arr@);
            let wb = word_bytes(words@);
            assert(wb.subrange(0, k + 1) =~= wb.subrange(0, k as int).push(fixed_arr@));
            vstd::seq_lib::to_multiset_build(wb.subrange(0, k as int), fixed_arr@);
            assert forall|a: int, b: int| 0 <= a < b < ranks@.len() implies #[trigger] ranks@[a] <= #[trigger] ranks@[b] by {
                if b < pos {
                } else if b == pos {
                } else if a < pos {
                    assert(old_ranks[b - 1] == ranks@[b]);
                    assert(pos < old_ranks.len() ==> old_ranks[pos as int] > key);
                    assert(old_ranks[b - 1] >= old_ranks[pos as int] || b - 1 == pos);
                } else if a == pos {
                    assert(old_ranks[pos as int] > key);
                    assert(old_ranks[b - 1] == ranks@[b]);
                } else {
                    assert(old_ranks[a - 1] == ranks@[a]);
                    assert(old_ranks[b - 1] == ranks@[b]);
                }
            }
        }
        k += 1;
    }
    assert(word_bytes(words@).subrange(0, words@.len() as int) =~= word_bytes(words@));
    proof {
        assert forall|a: int, b: int| 0 <= a < b < data@.len() implies word_rank(#[trigger] data@[a]@) <= word_rank(#[trigger] data@[b]@) by {
            assert(ranks@[a] <= ranks@[b]);
        }
    }
    data
}

/// `std::str::from_utf8`: the string a byte slice encodes, `None` when it is not valid UTF-8.
#[verifier::external_body]
fn str_from_utf8(v: &[u8]) -> (r: Option<&str>)
    ensures
        r is Some <==> valid_utf8(v@),
        r matches Some(s) ==> s.spec_bytes() == v@,
{
    std::str::from_utf8(v).ok()
}

/// The word a byte array spells.
pub fn arr_to_word(arr: &[u8; N_CHARS]) -> (r: String)
    requires
        valid_utf8(arr@),
    ensures
        r@ == decode_utf8(arr@),
        encode_utf8(r@) == arr@,
{
    let bytes: &[u8] = arr;
    assert(bytes@ == arr@);
    match str_from_utf8(bytes) {
        Some(s) => {
            proof {
                encode_utf8_decode_utf8(s@);
            }
            s.to_owned()
        },
        None => {
            proof {
                assert(false);
            }
            String::new()
        },
    }
}

/// `words` followed by the words of `extra` it lacks, each once, in order.
pub open spec fn merged(words: Seq<Seq<char>>, extra: Seq<Seq<char>>) -> Seq<Seq<char>>
    decreases extra.len(),
{
    if extra.len() == 0 {
        words
    } else {
        let prev = merged(words, extra.drop_last());
        if prev.contains(extra.last()) {
            prev
        } else {
            prev.push(extra.last())
        }
    }
}

/// Adds to the guesses the candidates they lack, so that every candidate can be guessed;
/// returns how many were added.
pub fn add_missing_words(guesses: &mut Vec<String>, candidates: &[String]) -> (n_added: usize)
    ensures
        views(final(guesses)@) == merged(views(old(guesses)@), views(candidates@)),
        n_added == final(guesses)@.len() - old(guesses)@.len(),
{
    let ghost g0 = views(guesses@);
    let mut n_added: usize = 0;
    let mut k: usize = 0;
    assert(views(candidates@).take(0) =~= Seq::<Seq<char>>::empty());
    while k < candidates.len()
        invariant
            k <= candidates@.len(),
            views(guesses@) == merged(g0, views(candidates@).take(k as int)),
            guesses@.len() == old(guesses)@.len() + n_added,
            n_added <= k,
            g0 == views(old(guesses)@),
        decreases candidates@.len() - k,
    {
        let mut found = false;
        let mut i: usize = 0;
        while i < guesses.len()
            invariant
                i <= guesses@.len(),
                k < candidates@.len(),
                found == views(guesses@).take(i as int).contains(candidates@[k as int]@),
            decreases guesses@.len() - i,
        {
            proof {
                let vs = views(guesses@);
                assert(vs.take(i + 1) =~= vs.take(i as int).push(vs[i as int]));
                vstd::seq_lib::lemma_seq_contains_after_push(vs.take(i as int), vs[i as int], candidates@[k as int]@);
            }
            if guesses[i] == candidates[k] {
                found = true;
            }
            i += 1;
        }
        assert(views(guesses@).take(guesses@.len() as int) =~= views(guesses@));
        proof {
            let ck = views(candidates@).take(k + 1);
            assert(ck.drop_last() =~= views(candidates@).take(k as int));
            assert(ck.last() == candidates@[k as int]@);
        }
        if !found {
            let ghost before = guesses@;
            guesses.push(candidates[k].clone());
            n_added = n_added + 1;
            assert(views(guesses@) =~= views(before).push(candidates@[k as int]@));
        }
        k += 1;
    }
    assert(views(candidates@).take(candidates@.len() as int) =~= views(candidates@));
    n_added
}

/// The parsed words are distinct, and each one is `n` letters `A` to `Z`, so `n` bytes.
pub proof fn lemma_parsed_words(toks: Seq<Seq<char>>, n: nat)
    ensures
        parsed(toks, n).no_duplicates(),
        forall|i: int| 0 <= i < parsed(toks, n).len() ==> #[trigger] upper_letters(parsed(toks, n)[i])
            && encode_utf8(parsed(toks, n)[i]).len() == n && parsed(toks, n)[i].len() == n,
    decreases toks.len(),
{
    if toks.len() > 0 {
        lemma_parsed_words(toks.drop_last(), n);
        let prev = parsed(toks.drop_last(), n);
        let cur = parsed(toks, n);
        assert forall|i: int| 0 <= i < cur.len() implies #[trigger] upper_letters(cur[i]) && encode_utf8(cur[i]).len() == n
            && cur[i].len() == n by {
            if i < prev.len() {
                assert(cur[i] == prev[i]);
            } else {
                lemma_letters_bytes(cur[i]);
            }
        }
        if cur.len() > prev.len() {
            assert forall|i: int, j: int| 0 <= i < j < cur.len() implies cur[i] != cur[j] by {
                if j == prev.len() {
                    assert(prev.contains(prev[i]));
                } else {
                    assert(cur[i] == prev[i] && cur[j] == prev[j]);
                }
            }
        }
    }
}

/// The words the byte strings spell.
pub open spec fn decoded(bs: Seq<Seq<u8>>) -> Seq<Seq<char>> {
    Seq::new(bs.len(), |i: int| decode_utf8(bs[i]))
}

/// The UTF-8 encodings of the words.
pub open spec fn encoded(ws: Seq<Seq<char>>) -> Seq<Seq<u8>> {
    Seq::new(ws.len(), |i: int| encode_utf8(ws[i]))
}

proof fn lemma_decoded_count(bs: Seq<Seq<u8>>, w: Seq<char>)
    requires
        forall|i: int| 0 <= i < bs.len() ==> valid_utf8(#[trigger] bs[i]),
    ensures
        decoded(bs).to_multiset().count(w) == bs.to_multiset().count(encode_utf8(w)),
    decreases bs.len(),
{
    broadcast use vstd::seq_lib::to_multiset_build, vstd::multiset::group_multiset_axioms, vstd::seq_lib::group_to_multiset_ensures;
    if bs.len() == 0 {
        assert(!decoded(bs).contains(w));
        assert(!bs.contains(encode_utf8(w)));
    } else {
        let p = bs.drop_last();
        let x = bs.last();
        lemma_decoded_count(p, w);
        assert(decoded(bs) =~= decoded(p).push(decode_utf8(x)));
        assert(bs =~= p.push(x));
        assert(valid_utf8(bs[bs.len() - 1]));
        vstd::utf8::decode_utf8_encode_utf8(x);
        encode_utf8_decode_utf8(w);
    }
}

proof fn lemma_encoded_count(ws: Seq<Seq<char>>, w: Seq<char>)
    ensures
        encoded(ws).to_multiset().count(encode_utf8(w)) == ws.to_multiset().count(w),
    decreases ws.len(),
{
    broadcast use vstd::seq_lib::to_multiset_build, vstd::multiset::group_multiset_axioms, vstd::seq_lib::group_to_multiset_ensures;
    if ws.len() == 0 {
        assert(!encoded(ws).contains(encode_utf8(w)));
        assert(!ws.contains(w));
    } else {
        let p = ws.drop_last();
        let x = ws.last();
        lemma_encoded_count(p, w);
        assert(encoded(ws) =~= encoded(p).push(encode_utf8(x)));
        assert(ws =~= p.push(x));
        encode_utf8_decode_utf8(w);
        encode_utf8_decode_utf8(x);
    }
}

/// Spelling each array of `words_to_arr` as a word gives back the words, each as often as
/// it was given: the arrays are valid UTF-8, and their words are the given ones.
pub proof fn lemma_words_round_trip(words: Seq<String>, arrs: Seq<[u8; N_CHARS]>)
    requires
        arr_views(arrs).to_multiset() == word_bytes(words).to_multiset(),
    ensures
        forall|i: int| 0 <= i < arrs.len() ==> valid_utf8(#[trigger] arrs[i]@),
        decoded(arr_views(arrs)).to_multiset() == views(words).to_multiset(),
{
    broadcast use vstd::seq_lib::group_to_multiset_ensures;
    let bs = arr_views(arrs);
    assert(word_bytes(words) =~= encoded(views(words)));
    assert forall|i: int| 0 <= i < arrs.len() implies valid_utf8(#[trigger] arrs[i]@) by {
        assert(bs[i] == arrs[i]@);
        assert(bs.contains(bs[i]));
        assert(bs.to_multiset().count(bs[i]) > 0);
        assert(word_bytes(words).contains(bs[i]));
        let j = choose|j: int| 0 <= j < word_bytes(words).len() && word_bytes(words)[j] == bs[i];
        vstd::utf8::encode_utf8_valid_utf8(words[j]@);
    }
    assert forall|i: int| 0 <= i < bs.len() implies valid_utf8(#[trigger] bs[i]) by {
        assert(bs[i] == arrs[i]@);
    }
    assert forall|w: Seq<char>| #[trigger] decoded(bs).to_multiset().count(w) == views(words).to_multiset().count(w) by {
        lemma_decoded_count(bs, w);
        lemma_encoded_count(views(words), w);
    }
    assert(decoded(bs).to_multiset() =~= views(words).to_multiset());
}

} // verus!
