//! A bucketed hash map that groups anagrams.
//!
//! Every inserted word is reduced to its canonical key: its characters in
//! ascending code point order.  Words sharing a canonical key — anagrams
//! of one another — are collected in one group, and the group lives in the
//! bucket picked by hashing the key with Horner's method.  Only words of
//! ASCII letters are supported.

use vstd::prelude::*;
use vstd::std_specs::iter::IteratorSpec;

verus! {

/// One group of anagrams: the canonical key and the inserted words.
struct KeyValuePair {
    key: Vec<char>,
    values: Vec<String>,
}

/// A bucketed map from canonical keys to anagram groups.
pub struct HashMap {
    buckets: Vec<Vec<KeyValuePair>>,
}

/// Character order by code point.
pub open spec fn char_le(a: char, b: char) -> bool {
    a as u32 <= b as u32
}

/// A sequence of characters in ascending code point order.
pub open spec fn sorted_chars(s: Seq<char>) -> bool {
    forall|i: int, j: int| 0 <= i < j < s.len() ==> char_le(s[i], s[j])
}

/// `k` is the canonical key of `w`: the same characters, sorted.
pub open spec fn is_canonical(k: Seq<char>, w: Seq<char>) -> bool {
    sorted_chars(k) && k.to_multiset() == w.to_multiset()
}

/// An ASCII letter.
pub open spec fn is_ascii_letter(c: char) -> bool {
    (65 <= c as u32 <= 90) || (97 <= c as u32 <= 122)
}

/// The alphabet position (1 to 26) of an ASCII letter, case insensitive.
pub open spec fn alphabet_position(c: char) -> nat {
    if 65 <= c as u32 <= 90 {
        (c as u32 - 64) as nat
    } else if 97 <= c as u32 <= 122 {
        (c as u32 - 96) as nat
    } else {
        0
    }
}

/// Horner's method over the alphabet positions, with the machine word's
/// wrapping arithmetic.
pub open spec fn horner_hash(s: Seq<char>) -> nat
    decreases s.len(),
{
    if s.len() == 0 {
        0
    } else {
        (horner_hash(s.drop_last()) * 31 + alphabet_position(s.last())) % (usize::MAX as nat + 1)
    }
}

/// Two characters with the same code point are the same character.
proof fn lemma_char_code_injective(a: char, b: char)
    requires
        a as u32 == b as u32,
    ensures
        a == b,
{
    assert(a as u32 as int == a as int);
    assert(b as u32 as int == b as int);
    assert(a as int == b as int);
}

/// A sorted sequence is determined by its multiset of characters, so every
/// word has exactly one canonical key.
pub proof fn lemma_canonical_unique(k1: Seq<char>, k2: Seq<char>, w: Seq<char>)
    requires
        is_canonical(k1, w),
        is_canonical(k2, w),
    ensures
        k1 == k2,
    decreases k1.len(),
{
    broadcast use vstd::seq_lib::group_to_multiset_ensures;

    if k1.len() == 0 {
        assert(k1.to_multiset().len() == k1.len());
        assert(k2.to_multiset().len() == k2.len());
        assert(k2.len() == 0);
        assert(k1 =~= k2);
    } else {
        assert(k1.to_multiset().len() == k1.len());
        assert(k2.to_multiset().len() == k2.len());
        assert(k2.len() == k1.len());
        assert(k2.to_multiset().contains(k2[0]));
        assert(k1.contains(k2[0]));
        assert(k1.to_multiset().contains(k1[0]));
        assert(k2.contains(k1[0]));
        let i1 = choose|i: int| 0 <= i < k1.len() && k1[i] == k2[0];
        let i2 = choose|i: int| 0 <= i < k2.len() && k2[i] == k1[0];
        assert(char_le(k1[0], k1[i1]) || i1 == 0);
        assert(char_le(k2[0], k2[i2]) || i2 == 0);
        lemma_char_code_injective(k1[0], k2[0]);
        let r1 = k1.drop_first();
        let r2 = k2.drop_first();
        assert(k1.remove(0) =~= r1);
        assert(k2.remove(0) =~= r2);
        assert(r1.to_multiset() == k1.to_multiset().remove(k1[0]));
        assert(r2.to_multiset() == k2.to_multiset().remove(k2[0]));
        assert(sorted_chars(r1) && sorted_chars(r2));
        assert(is_canonical(r1, r2));
        lemma_canonical_unique(r1, r2, r2);
        assert forall|idx: int| 0 <= idx < k1.len() implies k1[idx] == k2[idx] by {
            if idx > 0 {
                assert(r1[idx - 1] == r2[idx - 1]);
            }
        }
        assert(k1 =~= k2);
    }
}

/// A wrapping multiply-then-add step computes one step of `horner_hash`.
proof fn lemma_wrapping_horner_step(h: usize, p: usize)
    requires
        p <= 26,
    ensures
        vstd::wrapping::usize_specs::wrapping_add(
            vstd::wrapping::usize_specs::wrapping_mul(h, 31),
            p,
        ) as nat == (h as nat * 31 + p as nat) % (usize::MAX as nat + 1),
{
    let r = usize::MAX as nat + 1;
    let m = vstd::wrapping::usize_specs::wrapping_mul(h, 31);
    assert(m == (h * 31) as nat % r);
    vstd::arithmetic::div_mod::lemma_mod_bound((h * 31) as int, r as int);
    vstd::arithmetic::div_mod::lemma_add_mod_noop((h * 31) as int, p as int, r as int);
    vstd::arithmetic::div_mod::lemma_small_mod(p as nat, r);
    if m + p <= usize::MAX {
        vstd::arithmetic::div_mod::lemma_small_mod((m + p) as nat, r);
    } else {
        vstd::arithmetic::div_mod::lemma_fundamental_div_mod_converse_div(
            m + p,
            r as int,
            1,
            m + p - r,
        );
        vstd::arithmetic::div_mod::lemma_fundamental_div_mod_converse_mod(
            m + p,
            r as int,
            1,
            m + p - r,
        );
    }
}

/// Collects the characters of a string.
fn chars_of(s: &str) -> (r: Vec<char>)
    ensures
        r@ == s@,
{
    broadcast use vstd::string::axiom_spec_iter;
    broadcast use vstd::string::next_postcondition;

    let mut chars = s.chars();
    let mut r: Vec<char> = Vec::new();
    loop
        invariant
            chars.obeys_prophetic_iter_laws(),
            r@ + chars.remaining() == s@,
            r@.len() <= s@.len(),
        decreases s@.len() - r@.len(),
    {
        match chars.next() {
            None => {
                proof {
                    assert(r@ =~= s@);
                }
                return r;
            },
            Some(c) => {
                r.push(c);
                proof {
                    assert(r@ + chars.remaining() =~= s@);
                }
            },
        }
    }
}

/// Sorts a vector of characters in place (insertion sort).
fn sort_chars(v: &mut Vec<char>)
    ensures
        sorted_chars(final(v)@),
        final(v)@.to_multiset() == old(v)@.to_multiset(),
        final(v)@.len() == old(v)@.len(),
{
    broadcast use vstd::seq_lib::group_to_multiset_ensures;

    if v.len() <= 1 {
        return ;
    }
    let ghost orig = v@;
    let mut i: usize = 1;
    while i < v.len()
        invariant
            1 <= i <= v@.len(),
            v@.len() == orig.len(),
            v@.to_multiset() == orig.to_multiset(),
            sorted_chars(v@.take(i as int)),
        decreases v@.len() - i,
    {
        proof {
            assert forall|a: int, b: int| 0 <= a < b < i as int implies char_le(v@[a], v@[b]) by {
                assert(char_le(v@.take(i as int)[a], v@.take(i as int)[b]));
            }
        }
        let mut j: usize = i;
        while j > 0 && (v[j - 1] as u32) > (v[j] as u32)
            invariant
                0 <= j <= i < v@.len(),
                v@.len() == orig.len(),
                v@.to_multiset() == orig.to_multiset(),
                forall|a: int, b: int|
                    0 <= a < b <= i as int && b != j as int ==> char_le(v@[a], v@[b]),
                forall|b: int| j < b <= i as int ==> char_le(v@[j as int], v@[b]),
            decreases j,
        {
            let ghost before = v@;
            let lo = v[j - 1];
            let hi = v[j];
            v[j - 1] = hi;
            v[j] = lo;
            proof {
                assert(v@ =~= before.update(j - 1, hi).update(j as int, lo));
                assert(v@.to_multiset() =~= before.to_multiset()) by {
                    broadcast use vstd::seq_lib::group_to_multiset_ensures;

                    assert(before[j - 1] == lo);
                    let step1 = before.update(j - 1, hi);
                    assert(step1.to_multiset() == before.to_multiset().insert(hi).remove(
                        before[j - 1],
                    ));
                    assert(step1[j as int] == hi);
                    assert(step1.update(j as int, lo).to_multiset() == step1.to_multiset().insert(
                        lo,
                    ).remove(hi));
                    assert(before.to_multiset().contains(lo)) by {
                        assert(before.contains(lo));
                    }
                }
            }
            j = j - 1;
        }
        proof {
            assert forall|a: int, b: int| 0 <= a < b <= i as int implies char_le(v@[a], v@[b]) by {
                if b == j as int {
                    if a < j - 1 {
                        assert(char_le(v@[a], v@[j - 1]));
                        assert(char_le(v@[j - 1], v@[j as int]));
                    }
                }
            }
            assert(sorted_chars(v@.take(i + 1))) by {
                assert forall|a: int, b: int|
                    0 <= a < b < i + 1 implies char_le(
                    #[trigger] v@.take(i + 1)[a],
                    #[trigger] v@.take(i + 1)[b],
                ) by {
                    assert(char_le(v@[a], v@[b]));
                }
            }
        }
        i = i + 1;
    }
    proof {
        assert(v@.take(v@.len() as int) =~= v@);
    }
}

/// Compares two character vectors for equality of their contents.
fn keys_equal(a: &Vec<char>, b: &Vec<char>) -> (r: bool)
    ensures
        r == (a@ == b@),
{
    if a.len() != b.len() {
        proof {
            assert(a@ != b@);
        }
        return false;
    }
    let mut i: usize = 0;
    while i < a.len()
        invariant
            i <= a@.len(),
            a@.len() == b@.len(),
            forall|k: int| 0 <= k < i ==> a@[k] == b@[k],
        decreases a@.len() - i,
    {
        if (a[i] as u32) != (b[i] as u32) {
            proof {
                assert(a@[i as int] != b@[i as int]);
            }
            return false;
        }
        proof {
            lemma_char_code_injective(a@[i as int], b@[i as int]);
        }
        i = i + 1;
    }
    proof {
        assert(a@ =~= b@);
    }
    true
}

/// Whether a character is an ASCII letter.
fn is_letter(c: char) -> (r: bool)
    ensures
        r == is_ascii_letter(c),
{
    let code = c as u32;
    (65 <= code && code <= 90) || (97 <= code && code <= 122)
}

/// Whether a group stores (a view of) the given word.
spec fn pair_has_word(p: KeyValuePair, w: Seq<char>) -> bool {
    exists|j: int| 0 <= j < p.values@.len() && p.values@[j]@ == w
}

/// Finds the position of a group with the given key, scanning from `i`.
fn find_key_index(bucket: &Vec<KeyValuePair>, key: &Vec<char>, i: usize) -> (r: Option<usize>)
    requires
        i <= bucket@.len(),
    ensures
        r matches Some(j) ==> i <= j < bucket@.len() && bucket@[j as int].key@ == key@,
        r.is_none() ==> forall|j: int| i <= j < bucket@.len() ==> bucket@[j].key@ != key@,
    decreases bucket@.len() - i,
{
    if i == bucket.len() {
        None
    } else if keys_equal(&bucket[i].key, key) {
        Some(i)
    } else {
        find_key_index(bucket, key, i + 1)
    }
}

impl HashMap {
    /// Whether the map stores word `w` under canonical key `k`.
    pub closed spec fn stores(self, k: Seq<char>, w: Seq<char>) -> bool {
        exists|b: int, i: int|
            0 <= b < self.buckets@.len() && 0 <= i < self.buckets@[b]@.len()
                && (#[trigger] self.buckets@[b]@[i]).key@ == k && pair_has_word(
                self.buckets@[b]@[i],
                w,
            )
    }

    /// Whether `ws` is one of the map's groups of words.
    pub closed spec fn is_group(self, ws: Seq<String>) -> bool {
        exists|b: int, i: int|
            0 <= b < self.buckets@.len() && 0 <= i < self.buckets@[b]@.len() && (
            #[trigger] self.buckets@[b]@[i]).values@ == ws
    }

    /// The number of buckets.
    pub closed spec fn bucket_count(self) -> nat {
        self.buckets@.len()
    }

    /// The map's internal invariant: every group lives in the bucket its
    /// key hashes to, keys are unique within a bucket, and every stored
    /// word is an anagram of its group's sorted key.
    pub closed spec fn well_formed(self) -> bool {
        &&& (forall|b: int, i: int|
            0 <= b < self.buckets@.len() && 0 <= i < self.buckets@[b]@.len() ==> horner_hash(
                (#[trigger] self.buckets@[b]@[i]).key@,
            ) % self.buckets@.len() == b)
        &&& (forall|b: int, i1: int, i2: int|
            0 <= b < self.buckets@.len() && 0 <= i1 < i2 < self.buckets@[b]@.len()
                ==> (#[trigger] self.buckets@[b]@[i1]).key@ != (
            #[trigger] self.buckets@[b]@[i2]).key@)
        &&& (forall|b: int, i: int, j: int|
            0 <= b < self.buckets@.len() && 0 <= i < self.buckets@[b]@.len() && 0 <= j < (
            #[trigger] self.buckets@[b]@[i]).values@.len() ==> is_canonical(
                self.buckets@[b]@[i].key@,
                #[trigger] self.buckets@[b]@[i].values@[j]@,
            ))
    }

    /// Creates a map with the given number of buckets.
    pub fn new(size: usize) -> (m: Self)
        ensures
            m.well_formed(),
            m.bucket_count() == size,
            forall|k: Seq<char>, w: Seq<char>| !m.stores(k, w),
    {
        let mut buckets: Vec<Vec<KeyValuePair>> = Vec::new();
        while buckets.len() < size
            invariant
                buckets@.len() <= size,
                forall|b: int| 0 <= b < buckets@.len() ==> (#[trigger] buckets@[b])@.len() == 0,
            decreases size - buckets@.len(),
        {
            buckets.push(Vec::new());
        }
        HashMap { buckets }
    }

    /// The alphabet position (1 to 26) of an ASCII letter, case
    /// insensitive.
    fn get_alphabet_position(c: char) -> (r: usize)
        requires
            is_ascii_letter(c),
        ensures
            r == alphabet_position(c),
    {
        let code = c as u32;
        let lower = if 65 <= code && code <= 90 {
            code + 32
        } else {
            code
        };
        let position = lower - 96;
        position as usize
    }

    /// Sorts the characters of a word into its canonical key.
    fn create_canonical_key(word: &str) -> (r: Vec<char>)
        ensures
            is_canonical(r@, word@),
    {
        let mut letters = chars_of(word);
        sort_chars(&mut letters);
        letters
    }

    /// The bucket a canonical key belongs to.
    fn hash(&self, key: &Vec<char>) -> (r: usize)
        requires
            self.buckets@.len() > 0,
        ensures
            r == horner_hash(key@) % self.buckets@.len(),
    {
        let prime_number: usize = 31;
        let mut hash_value: usize = 0;
        let mut i: usize = 0;
        while i < key.len()
            invariant
                i <= key@.len(),
                hash_value == horner_hash(key@.take(i as int)),
            decreases key@.len() - i,
        {
            let c = key[i];
            let alphabet_pos = if is_letter(c) {
                Self::get_alphabet_position(c)
            } else {
                0
            };
            let ghost before = hash_value;
            hash_value = hash_value.wrapping_mul(31).wrapping_add(alphabet_pos);
            proof {
                let tk = key@.take(i + 1);
                assert(tk.drop_last() =~= key@.take(i as int));
                assert(tk.last() == key@[i as int]);
                assert(alphabet_pos == alphabet_position(key@[i as int]));
                assert(alphabet_pos <= 26);
                lemma_wrapping_horner_step(before, alphabet_pos);
                assert(horner_hash(tk) == (horner_hash(tk.drop_last()) * 31 + alphabet_position(
                    tk.last(),
                )) % (usize::MAX as nat + 1));
                assert(hash_value as nat == horner_hash(tk));
            }
            i = i + 1;
        }
        proof {
            assert(key@.take(key@.len() as int) =~= key@);
        }
        hash_value % self.buckets.len()
    }

    /// Records a word in the group of its canonical key, creating the
    /// group when the word is the first of its anagram class.
    pub fn insert(&mut self, word: &str)
        requires
            old(self).well_formed(),
            old(self).bucket_count() > 0,
            forall|i: int| 0 <= i < word@.len() ==> is_ascii_letter(#[trigger] word@[i]),
        ensures
            final(self).well_formed(),
            final(self).bucket_count() == old(self).bucket_count(),
            forall|k: Seq<char>, w: Seq<char>|
                final(self).stores(k, w) <==> (old(self).stores(k, w) || (is_canonical(k, word@)
                    && w == word@)),
    {
        let ghost old_self = *self;
        let key = Self::create_canonical_key(word);
        let bucket_index = self.hash(&key);
        let mut bucket: Vec<KeyValuePair> = Vec::new();
        std::mem::swap(&mut bucket, &mut self.buckets[bucket_index]);
        let ghost old_bucket = bucket;
        match find_key_index(&bucket, &key, 0) {
            Some(j) => {
                let mut pair = KeyValuePair { key: Vec::new(), values: Vec::new() };
                std::mem::swap(&mut pair, &mut bucket[j]);
                pair.values.push(word.to_owned());
                bucket[j] = pair;
            },
            None => {
                let mut values: Vec<String> = Vec::new();
                values.push(word.to_owned());
                bucket.push(KeyValuePair { key, values });
            },
        }
        self.buckets[bucket_index] = bucket;
        proof {
            lemma_insert_post(old_self, *self, bucket_index as int, old_bucket, key@, word@);
        }
    }

    /// Collects the groups holding more than one word: each is a set of
    /// words that are anagrams of one another.
    pub fn get_anagram_groups(&self) -> (r: Vec<&Vec<String>>)
        requires
            self.well_formed(),
        ensures
            forall|g: int|
                0 <= g < r@.len() ==> (#[trigger] r@[g])@.len() > 1 && self.is_group(r@[g]@),
            forall|ws: Seq<String>|
                #[trigger] self.is_group(ws) && ws.len() > 1 ==> exists|g: int|
                    0 <= g < r@.len() && (#[trigger] r@[g])@ == ws,
            forall|g: int, a: int, b: int|
                #![trigger r@[g]@[a], r@[g]@[b]]
                0 <= g < r@.len() && 0 <= a < r@[g]@.len() && 0 <= b < r@[g]@.len()
                    ==> r@[g]@[a]@.to_multiset() == r@[g]@[b]@.to_multiset(),
    {
        let mut groups: Vec<&Vec<String>> = Vec::new();
        let mut b: usize = 0;
        while b < self.buckets.len()
            invariant
                b <= self.buckets@.len(),
                self.well_formed(),
                forall|g: int|
                    0 <= g < groups@.len() ==> (#[trigger] groups@[g])@.len() > 1 && self.is_group(
                        groups@[g]@,
                    ),
                forall|b2: int, i2: int|
                    0 <= b2 < b as int && 0 <= i2 < self.buckets@[b2]@.len() && (
                    #[trigger] self.buckets@[b2]@[i2]).values@.len() > 1 ==> exists|g: int|
                        0 <= g < groups@.len() && (#[trigger] groups@[g])@
                            == self.buckets@[b2]@[i2].values@,
            decreases self.buckets@.len() - b,
        {
            let bucket = &self.buckets[b];
            let mut i: usize = 0;
            while i < bucket.len()
                invariant
                    b < self.buckets@.len(),
                    bucket == &self.buckets[b as int],
                    i <= bucket@.len(),
                    self.well_formed(),
                    forall|g: int|
                        0 <= g < groups@.len() ==> (#[trigger] groups@[g])@.len() > 1
                            && self.is_group(groups@[g]@),
                    forall|b2: int, i2: int|
                        0 <= b2 < b as int && 0 <= i2 < self.buckets@[b2]@.len() && (
                        #[trigger] self.buckets@[b2]@[i2]).values@.len() > 1 ==> exists|g: int|
                            0 <= g < groups@.len() && (#[trigger] groups@[g])@
                                == self.buckets@[b2]@[i2].values@,
                    forall|i2: int|
                        0 <= i2 < i as int && (#[trigger] self.buckets@[b as int]@[i2]).values@.len()
                            > 1 ==> exists|g: int|
                            0 <= g < groups@.len() && (#[trigger] groups@[g])@
                                == self.buckets@[b as int]@[i2].values@,
                decreases bucket@.len() - i,
            {
                let pair = &bucket[i];
                let ghost old_groups = groups@;
                if pair.values.len() > 1 {
                    groups.push(&pair.values);
                    proof {
                        let last = groups@.len() - 1;
                        assert(groups@[last] == &self.buckets@[b as int]@[i as int].values);
                        assert(self.is_group(groups@[last]@)) by {
                            assert(self.buckets@[b as int]@[i as int].values@ == groups@[last]@);
                        }
                        assert forall|g: int|
                            0 <= g < groups@.len() implies (#[trigger] groups@[g])@.len() > 1
                            && self.is_group(groups@[g]@) by {
                            if g < last {
                                assert(groups@[g] == old_groups[g]);
                            }
                        }
                        assert forall|b2: int, i2: int|
                            0 <= b2 < b as int && 0 <= i2 < self.buckets@[b2]@.len() && (
                            #[trigger] self.buckets@[b2]@[i2]).values@.len() > 1 implies exists|
                            g: int,
                        |
                            0 <= g < groups@.len() && (#[trigger] groups@[g])@
                                == self.buckets@[b2]@[i2].values@ by {
                            let g0 = choose|g0: int|
                                0 <= g0 < old_groups.len() && (#[trigger] old_groups[g0])@
                                    == self.buckets@[b2]@[i2].values@;
                            assert(groups@[g0] == old_groups[g0]);
                            assert(groups@[g0]@ == self.buckets@[b2]@[i2].values@);
                        }
                        assert forall|i2: int|
                            0 <= i2 < i as int + 1 && (
                            #[trigger] self.buckets@[b as int]@[i2]).values@.len() > 1 implies exists|
                            g: int,
                        |
                            0 <= g < groups@.len() && (#[trigger] groups@[g])@
                                == self.buckets@[b as int]@[i2].values@ by {
                            if i2 < i as int {
                                let g0 = choose|g0: int|
                                    0 <= g0 < old_groups.len() && (#[trigger] old_groups[g0])@
                                        == self.buckets@[b as int]@[i2].values@;
                                assert(groups@[g0] == old_groups[g0]);
                                assert(groups@[g0]@ == self.buckets@[b as int]@[i2].values@);
                            } else {
                                assert(groups@[last]@ == self.buckets@[b as int]@[i2].values@);
                            }
                        }
                    }
                }
                i = i + 1;
            }
            b = b + 1;
        }
        proof {
            assert forall|ws: Seq<String>|
                #[trigger] self.is_group(ws) && ws.len() > 1 implies exists|g: int|
                0 <= g < groups@.len() && (#[trigger] groups@[g])@ == ws by {
                let (b2, i2) = choose|b2: int, i2: int|
                    0 <= b2 < self.buckets@.len() && 0 <= i2 < self.buckets@[b2]@.len() && (
                    #[trigger] self.buckets@[b2]@[i2]).values@ == ws;
            }
            assert forall|g: int, a: int, bb: int|
                #![trigger groups@[g]@[a], groups@[g]@[bb]]
                0 <= g < groups@.len() && 0 <= a < groups@[g]@.len() && 0 <= bb
                    < groups@[g]@.len() implies groups@[g]@[a]@.to_multiset()
                == groups@[g]@[bb]@.to_multiset() by {
                let ws = groups@[g]@;
                let (b2, i2) = choose|b2: int, i2: int|
                    0 <= b2 < self.buckets@.len() && 0 <= i2 < self.buckets@[b2]@.len() && (
                    #[trigger] self.buckets@[b2]@[i2]).values@ == ws;
                assert(is_canonical(self.buckets@[b2]@[i2].key@, ws[a]@));
                assert(is_canonical(self.buckets@[b2]@[i2].key@, ws[bb]@));
            }
        }
        groups
    }
}

/// The effect of one insertion: the modified bucket either extends one
/// group by the word or appends a fresh group for it, so the map stores
/// exactly the old words plus the new one under its canonical key.
#[verifier::rlimit(50)]
proof fn lemma_insert_post(
    old_self: HashMap,
    new_self: HashMap,
    bi: int,
    old_bucket: Vec<KeyValuePair>,
    key: Seq<char>,
    word: Seq<char>,
)
    requires
        old_self.well_formed(),
        old_self.buckets@.len() > 0,
        0 <= bi < old_self.buckets@.len(),
        bi == (horner_hash(key) % old_self.buckets@.len()) as int,
        is_canonical(key, word),
        old_bucket == old_self.buckets@[bi],
        new_self.buckets@.len() == old_self.buckets@.len(),
        forall|b: int|
            0 <= b < old_self.buckets@.len() && b != bi ==> new_self.buckets@[b]
                == old_self.buckets@[b],
        // the bucket was changed in one of the two allowed ways
        ({
            let nb = new_self.buckets@[bi]@;
            let ob = old_bucket@;
            ||| (exists|j: int|
                0 <= j < ob.len() && ob[j].key@ == key && nb.len() == ob.len() && (forall|j2: int|
                    0 <= j2 < ob.len() && j2 != j ==> nb[j2] == ob[j2]) && (#[trigger] nb[j]).key@
                    == key && nb[j].values@.len() == ob[j].values@.len() + 1 && (forall|w2: int|
                    0 <= w2 < ob[j].values@.len() ==> (#[trigger] nb[j].values@[w2])
                        == ob[j].values@[w2]) && nb[j].values@.last()@ == word)
            ||| ((forall|j: int| 0 <= j < ob.len() ==> (#[trigger] ob[j]).key@ != key) && nb.len()
                == ob.len() + 1 && (forall|j2: int| 0 <= j2 < ob.len() ==> (#[trigger] nb[j2])
                == ob[j2]) && nb.last().key@ == key && nb.last().values@.len() == 1
                && nb.last().values@[0]@ == word)
        }),
    ensures
        new_self.well_formed(),
        forall|k: Seq<char>, w: Seq<char>|
            new_self.stores(k, w) <==> (old_self.stores(k, w) || (is_canonical(k, word) && w
                == word)),
{
    let nb = new_self.buckets@[bi]@;
    let ob = old_bucket@;
    assert forall|b: int, i: int|
        #![trigger new_self.buckets@[b]@[i]]
        0 <= b < new_self.buckets@.len() && 0 <= i < new_self.buckets@[b]@.len() implies {
        let p = new_self.buckets@[b]@[i];
        &&& horner_hash(p.key@) % new_self.buckets@.len() == b
        &&& forall|j: int| 0 <= j < p.values@.len() ==> is_canonical(p.key@, #[trigger] p.values@[j]@)
    } by {
        let p = new_self.buckets@[b]@[i];
        if b != bi {
            assert(p == old_self.buckets@[b]@[i]);
            assert(horner_hash(p.key@) % old_self.buckets@.len() == b);
            assert forall|j2: int|
                0 <= j2 < p.values@.len() implies is_canonical(
                p.key@,
                #[trigger] p.values@[j2]@,
            ) by {
                assert(is_canonical(
                    old_self.buckets@[b]@[i].key@,
                    old_self.buckets@[b]@[i].values@[j2]@,
                ));
            }
        } else {
            if exists|j: int| 0 <= j < ob.len() && (#[trigger] ob[j]).key@ == key {
                let j = choose|j: int| 0 <= j < ob.len() && (#[trigger] ob[j]).key@ == key;
                if i != j {
                    assert(p == ob[i]);
                    assert(p == old_self.buckets@[bi]@[i]);
                    assert(horner_hash(p.key@) % old_self.buckets@.len() == bi);
                    assert forall|j2: int|
                        0 <= j2 < p.values@.len() implies is_canonical(
                        p.key@,
                        #[trigger] p.values@[j2]@,
                    ) by {
                        assert(is_canonical(
                            old_self.buckets@[bi]@[i].key@,
                            old_self.buckets@[bi]@[i].values@[j2]@,
                        ));
                    }
                } else {
                    assert(p.key@ == key);
                    assert(ob[j] == old_self.buckets@[bi]@[j]);
                    assert(horner_hash(ob[j].key@) % old_self.buckets@.len() == bi);
                    assert forall|w2: int|
                        0 <= w2 < p.values@.len() implies is_canonical(
                        p.key@,
                        #[trigger] p.values@[w2]@,
                    ) by {
                        if w2 < ob[j].values@.len() {
                            assert(p.values@[w2] == ob[j].values@[w2]);
                            assert(is_canonical(ob[j].key@, ob[j].values@[w2]@));
                        } else {
                            assert(p.values@[w2] == p.values@.last());
                        }
                    }
                }
            } else {
                if i < ob.len() {
                    assert(p == ob[i]);
                    assert(p == old_self.buckets@[bi]@[i]);
                    assert(horner_hash(p.key@) % old_self.buckets@.len() == bi);
                    assert forall|j2: int|
                        0 <= j2 < p.values@.len() implies is_canonical(
                        p.key@,
                        #[trigger] p.values@[j2]@,
                    ) by {
                        assert(is_canonical(
                            old_self.buckets@[bi]@[i].key@,
                            old_self.buckets@[bi]@[i].values@[j2]@,
                        ));
                    }
                } else {
                    assert(p == nb.last());
                    assert(p.key@ == key);
                }
            }
        }
    }
    assert forall|b: int, i1: int, i2: int|
        0 <= b < new_self.buckets@.len() && 0 <= i1 < i2 < new_self.buckets@[b]@.len() implies (
    #[trigger] new_self.buckets@[b]@[i1]).key@ != (#[trigger] new_self.buckets@[b]@[i2]).key@ by {
        if b != bi {
            assert(new_self.buckets@[b]@[i1] == old_self.buckets@[b]@[i1]);
            assert(new_self.buckets@[b]@[i2] == old_self.buckets@[b]@[i2]);
        } else {
            if exists|j: int| 0 <= j < ob.len() && (#[trigger] ob[j]).key@ == key {
                let j = choose|j: int| 0 <= j < ob.len() && (#[trigger] ob[j]).key@ == key;
                assert(nb[i1].key@ == ob[i1].key@);
                assert(nb[i2].key@ == ob[i2].key@);
                assert(ob[i1] == old_self.buckets@[bi]@[i1]);
                assert(ob[i2] == old_self.buckets@[bi]@[i2]);
            } else {
                if i2 < ob.len() {
                    assert(nb[i1] == ob[i1] && nb[i2] == ob[i2]);
                    assert(ob[i1] == old_self.buckets@[bi]@[i1]);
                    assert(ob[i2] == old_self.buckets@[bi]@[i2]);
                } else {
                    assert(nb[i1] == ob[i1]);
                    assert(nb[i2].key@ == key);
                    assert(ob[i1].key@ != key);
                }
            }
        }
    }
    assert(new_self.well_formed());
    assert forall|k: Seq<char>, w: Seq<char>| #[trigger]
        new_self.stores(k, w) implies (old_self.stores(k, w) || (is_canonical(k, word) && w
        == word)) by {
        let (b, i) = choose|b: int, i: int|
            0 <= b < new_self.buckets@.len() && 0 <= i < new_self.buckets@[b]@.len() && (
            #[trigger] new_self.buckets@[b]@[i]).key@ == k && pair_has_word(
                new_self.buckets@[b]@[i],
                w,
            );
        let jw = choose|j: int|
            0 <= j < new_self.buckets@[b]@[i].values@.len() && new_self.buckets@[b]@[i].values@[j]@
                == w;
        if b != bi {
            assert(old_self.stores(k, w));
        } else {
            if exists|j: int| 0 <= j < ob.len() && (#[trigger] ob[j]).key@ == key {
                let j = choose|j: int| 0 <= j < ob.len() && (#[trigger] ob[j]).key@ == key;
                if i != j {
                    assert(nb[i] == ob[i]);
                    assert(pair_has_word(ob[i], w));
                    assert(old_self.stores(k, w));
                } else {
                    if jw < ob[j].values@.len() {
                        assert(nb[j].values@[jw] == ob[j].values@[jw]);
                        assert(pair_has_word(ob[j], w));
                        assert(old_self.stores(k, w));
                    } else {
                        assert(w == word);
                        assert(k == key);
                    }
                }
            } else {
                if i < ob.len() {
                    assert(nb[i] == ob[i]);
                    assert(pair_has_word(ob[i], w));
                    assert(old_self.stores(k, w));
                } else {
                    assert(k == key && w == word);
                }
            }
        }
    }
    assert forall|k: Seq<char>, w: Seq<char>|
        old_self.stores(k, w) implies #[trigger] new_self.stores(k, w) by {
        let (b, i) = choose|b: int, i: int|
            0 <= b < old_self.buckets@.len() && 0 <= i < old_self.buckets@[b]@.len() && (
            #[trigger] old_self.buckets@[b]@[i]).key@ == k && pair_has_word(
                old_self.buckets@[b]@[i],
                w,
            );
        let jw = choose|j: int|
            0 <= j < old_self.buckets@[b]@[i].values@.len() && old_self.buckets@[b]@[i].values@[j]@
                == w;
        if b != bi {
            assert(new_self.buckets@[b]@[i].key@ == k);
            assert(pair_has_word(new_self.buckets@[b]@[i], w));
        } else {
            if exists|j: int| 0 <= j < ob.len() && (#[trigger] ob[j]).key@ == key {
                let j = choose|j: int| 0 <= j < ob.len() && (#[trigger] ob[j]).key@ == key;
                if i != j {
                    assert(nb[i] == ob[i]);
                    assert(pair_has_word(nb[i], w));
                } else {
                    assert(nb[j].values@[jw] == ob[j].values@[jw]);
                    assert(pair_has_word(nb[j], w));
                }
            } else {
                assert(nb[i] == ob[i]);
                assert(pair_has_word(nb[i], w));
            }
        }
        assert(new_self.stores(k, w));
    }
    assert forall|k: Seq<char>, w: Seq<char>|
        is_canonical(k, word) && w == word implies #[trigger] new_self.stores(k, w) by {
        lemma_canonical_unique(k, key, word);
        if exists|j: int| 0 <= j < ob.len() && (#[trigger] ob[j]).key@ == key {
            let j = choose|j: int| 0 <= j < ob.len() && (#[trigger] ob[j]).key@ == key;
            assert(nb[j].values@.last()@ == word);
            assert(pair_has_word(nb[j], w));
        } else {
            assert(nb.last().values@[0]@ == word);
            assert(pair_has_word(nb.last(), w));
            assert(new_self.buckets@[bi]@[nb.len() - 1].key@ == k);
        }
        assert(new_self.stores(k, w));
    }
}

} // verus!
