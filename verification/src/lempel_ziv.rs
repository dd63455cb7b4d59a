//! The tokenizer: finds repetitions in the input and describes it as
//! literals and copies of earlier bytes.

use crate::deflate::Token;
use crate::tables::{MAX_DISTANCE, MAX_MATCH, MIN_MATCH};
use vstd::prelude::*;

verus! {

/// The number of hash buckets.
pub const HASH_SIZE: usize = 32768;

/// How many earlier positions with the same hash [`lempel_ziv`] tries at
/// one position.
pub const MAX_CHAIN: usize = 128;

/// Marks the end of a chain of positions.
pub const NO_POSITION: usize = usize::MAX;

/// `out` followed by `len` bytes, each a copy of the byte `dist` places
/// before it. With `dist < len` the copy runs into its own output.
pub open spec fn copy_back(out: Seq<u8>, len: nat, dist: int) -> Seq<u8>
    decreases len,
{
    if len == 0 {
        out
    } else {
        copy_back(out.push(out[out.len() - dist]), (len - 1) as nat, dist)
    }
}

/// The token can stand after `out`: a match is within the format's ranges
/// and does not reach back beyond the start.
pub open spec fn token_fits(out: Seq<u8>, token: Token) -> bool {
    match token {
        Token::Literal(_) => true,
        Token::Repeat(len, dist) => 3 <= len <= 258 && 1 <= dist <= 32768 && dist <= out.len(),
    }
}

/// `out` followed by what the token stands for.
pub open spec fn apply_token(out: Seq<u8>, token: Token) -> Seq<u8> {
    match token {
        Token::Literal(b) => out.push(b),
        Token::Repeat(len, dist) => copy_back(out, len as nat, dist as int),
    }
}

/// `out` followed by what the tokens stand for.
pub open spec fn expand_from(out: Seq<u8>, tokens: Seq<Token>) -> Seq<u8>
    decreases tokens.len(),
{
    if tokens.len() == 0 {
        out
    } else {
        expand_from(apply_token(out, tokens[0]), tokens.skip(1))
    }
}

/// Every token can stand where it does when the tokens follow `out`.
pub open spec fn well_formed_from(out: Seq<u8>, tokens: Seq<Token>) -> bool
    decreases tokens.len(),
{
    tokens.len() == 0 || (token_fits(out, tokens[0]) && well_formed_from(
        apply_token(out, tokens[0]),
        tokens.skip(1),
    ))
}

/// The byte string that the tokens stand for.
pub open spec fn expand(tokens: Seq<Token>) -> Seq<u8> {
    expand_from(Seq::empty(), tokens)
}

/// Every token can stand where it does.
pub open spec fn well_formed(tokens: Seq<Token>) -> bool {
    well_formed_from(Seq::empty(), tokens)
}

/// Appending a token applies it last.
pub proof fn lemma_expand_push(out: Seq<u8>, tokens: Seq<Token>, token: Token)
    ensures
        expand_from(out, tokens.push(token)) == apply_token(expand_from(out, tokens), token),
        well_formed_from(out, tokens.push(token)) <==> well_formed_from(out, tokens) && token_fits(
            expand_from(out, tokens),
            token,
        ),
    decreases tokens.len(),
{
    let all = tokens.push(token);
    if tokens.len() == 0 {
        assert(all.skip(1) =~= Seq::<Token>::empty());
        assert(all[0] == token);
        assert(expand_from(apply_token(out, token), all.skip(1)) == apply_token(out, token));
        assert(well_formed_from(apply_token(out, token), all.skip(1)));
    } else {
        assert(all.skip(1) =~= tokens.skip(1).push(token));
        assert(all[0] == tokens[0]);
        lemma_expand_push(apply_token(out, tokens[0]), tokens.skip(1), token);
    }
}

/// Tokens in two runs expand one run after the other.
pub proof fn lemma_expand_concat(out: Seq<u8>, a: Seq<Token>, b: Seq<Token>)
    ensures
        expand_from(out, a + b) == expand_from(expand_from(out, a), b),
        well_formed_from(out, a + b) <==> well_formed_from(out, a) && well_formed_from(
            expand_from(out, a),
            b,
        ),
    decreases a.len(),
{
    if a.len() == 0 {
        assert(a + b =~= b);
    } else {
        assert((a + b).skip(1) =~= a.skip(1) + b);
        assert((a + b)[0] == a[0]);
        lemma_expand_concat(apply_token(out, a[0]), a.skip(1), b);
    }
}

/// A copy adds `len` bytes.
pub proof fn lemma_copy_back_len(out: Seq<u8>, len: nat, dist: int)
    ensures
        copy_back(out, len, dist).len() == out.len() + len,
    decreases len,
{
    if len > 0 {
        lemma_copy_back_len(out.push(out[out.len() - dist]), (len - 1) as nat, dist);
    }
}

/// Tokens that stand for fewer than three bytes are literals: a match
/// stands for three bytes at least.
pub proof fn lemma_short_input_literals(out: Seq<u8>, tokens: Seq<Token>)
    requires
        well_formed_from(out, tokens),
        expand_from(out, tokens).len() < out.len() + 3,
    ensures
        forall|i: int| 0 <= i < tokens.len() ==> #[trigger] tokens[i] is Literal,
        expand_from(out, tokens).len() == out.len() + tokens.len(),
    decreases tokens.len(),
{
    if tokens.len() > 0 {
        let next = apply_token(out, tokens[0]);
        lemma_expand_grows(next, tokens.skip(1));
        match tokens[0] {
            Token::Literal(_) => {},
            Token::Repeat(len, dist) => {
                lemma_copy_back_len(out, len as nat, dist as int);
            },
        }
        lemma_short_input_literals(next, tokens.skip(1));
        assert forall|i: int| 0 <= i < tokens.len() implies #[trigger] tokens[i] is Literal by {
            if i > 0 {
                assert(tokens[i] == tokens.skip(1)[i - 1]);
            }
        }
    }
}

/// Literals stand for their bytes.
pub proof fn lemma_literals_expand(out: Seq<u8>, tokens: Seq<Token>)
    requires
        forall|i: int| 0 <= i < tokens.len() ==> #[trigger] tokens[i] is Literal,
    ensures
        expand_from(out, tokens).len() == out.len() + tokens.len(),
        forall|i: int| 0 <= i < out.len() ==> expand_from(out, tokens)[i] == out[i],
        forall|i: int|
            0 <= i < tokens.len() ==> #[trigger] tokens[i] == Token::Literal(
                expand_from(out, tokens)[out.len() + i],
            ),
    decreases tokens.len(),
{
    if tokens.len() > 0 {
        let next = apply_token(out, tokens[0]);
        let tail = tokens.skip(1);
        assert(tokens[0] is Literal);
        assert forall|i: int| 0 <= i < tail.len() implies #[trigger] tail[i] is Literal by {
            assert(tail[i] == tokens[i + 1]);
        }
        lemma_literals_expand(next, tail);
        let all = expand_from(out, tokens);
        assert(all == expand_from(next, tail));
        assert forall|i: int| 0 <= i < out.len() implies all[i] == out[i] by {
            assert(next[i] == out[i]);
        }
        assert forall|i: int| 0 <= i < tokens.len() implies #[trigger] tokens[i] == Token::Literal(
            all[out.len() + i],
        ) by {
            if i == 0 {
                assert(all[out.len() as int] == next[out.len() as int]);
            } else {
                assert(tokens[i] == tail[i - 1]);
                assert(tail[i - 1] == Token::Literal(all[next.len() + (i - 1)]));
            }
        }
    }
}

/// Tokens only add bytes.
pub proof fn lemma_expand_grows(out: Seq<u8>, tokens: Seq<Token>)
    ensures
        expand_from(out, tokens).len() >= out.len(),
    decreases tokens.len(),
{
    if tokens.len() > 0 {
        match tokens[0] {
            Token::Literal(_) => {},
            Token::Repeat(len, dist) => {
                lemma_copy_back_len(out, len as nat, dist as int);
            },
        }
        lemma_expand_grows(apply_token(out, tokens[0]), tokens.skip(1));
    }
}

/// Every token that can stand where it does adds a byte at least.
pub proof fn lemma_expand_counts(out: Seq<u8>, tokens: Seq<Token>)
    requires
        well_formed_from(out, tokens),
    ensures
        expand_from(out, tokens).len() >= out.len() + tokens.len(),
    decreases tokens.len(),
{
    if tokens.len() > 0 {
        match tokens[0] {
            Token::Literal(_) => {},
            Token::Repeat(len, dist) => {
                lemma_copy_back_len(out, len as nat, dist as int);
            },
        }
        lemma_expand_counts(apply_token(out, tokens[0]), tokens.skip(1));
    }
}

/// A copy of bytes that repeat at distance `dist` extends a prefix of the
/// input to a longer prefix.
pub proof fn lemma_copy_back_prefix(input: Seq<u8>, pos: int, len: nat, dist: int)
    requires
        1 <= dist <= pos,
        pos + len <= input.len(),
        forall|k: int| 0 <= k < len ==> input[pos - dist + k] == #[trigger] input[pos + k],
    ensures
        copy_back(input.take(pos), len, dist) == input.take(pos + len),
    decreases len,
{
    if len > 0 {
        let out = input.take(pos);
        assert(input[pos - dist + 0] == input[pos + 0]);
        assert(out.push(out[out.len() - dist]) =~= input.take(pos + 1));
        assert forall|k: int| 0 <= k < len - 1 implies input[pos + 1 - dist + k]
            == #[trigger] input[pos + 1 + k] by {
            assert(input[pos - dist + (k + 1)] == input[pos + (k + 1)]);
        }
        lemma_copy_back_prefix(input, pos + 1, (len - 1) as nat, dist);
    }
}

/// The hash bucket of three bytes.
pub open spec fn hash3(a: u8, b: u8, c: u8) -> int {
    ((a * 31 + b) * 31 + c) % (HASH_SIZE as int)
}

/// The hash bucket of the three bytes at `pos`.
fn hash_at(input: &[u8], pos: usize) -> (h: usize)
    requires
        pos + 3 <= input@.len(),
    ensures
        h == hash3(input@[pos as int], input@[pos + 1], input@[pos + 2]),
        h < HASH_SIZE,
{
    let a = input[pos] as usize;
    let b = input[pos + 1] as usize;
    let c = input[pos + 2] as usize;
    ((a * 31 + b) * 31 + c) % HASH_SIZE
}

/// Records `pos` as the latest position of its hash bucket, and the latest
/// before it as the one that follows `pos` in the bucket's chain. The last
/// two positions of the input have no bucket.
fn remember(input: &[u8], pos: usize, head: &mut Vec<usize>, prev: &mut Vec<usize>)
    requires
        pos < input@.len(),
        old(head)@.len() == HASH_SIZE,
        old(prev)@.len() == MAX_DISTANCE,
    ensures
        pos + 3 <= input@.len() ==> {
            let h = hash3(input@[pos as int], input@[pos + 1], input@[pos + 2]);
            &&& final(head)@ == old(head)@.update(h, pos)
            &&& final(prev)@ == old(prev)@.update(pos as int % 32768, old(head)@[h])
        },
        pos + 3 > input@.len() ==> final(head)@ == old(head)@ && final(prev)@ == old(prev)@,
{
    if input.len() - pos >= 3 {
        let h = hash_at(input, pos);
        prev[pos % (MAX_DISTANCE as usize)] = head[h];
        head[h] = pos;
    }
}

/// How many bytes agree from `from` and from `pos` on, counting on from
/// `len` that do; at most 258, and none beyond the end.
pub open spec fn agreeing(input: Seq<u8>, from: int, pos: int, len: nat) -> nat
    decreases 258 - len,
{
    if len < 258 && pos + len < input.len() && input[from + len] == input[pos + len] {
        agreeing(input, from, pos, len + 1)
    } else {
        len
    }
}

/// How many bytes, up to 258, agree from `from` and from `pos` on.
fn match_length(input: &[u8], from: usize, pos: usize) -> (len: usize)
    requires
        from < pos < input@.len(),
    ensures
        len == agreeing(input@, from as int, pos as int, 0),
        len <= 258,
        pos + len <= input@.len(),
        forall|k: int| 0 <= k < len ==> input@[from + k] == #[trigger] input@[pos + k],
{
    let n = input.len();
    let mut len: usize = 0;
    while len < MAX_MATCH as usize && len < n - pos && input[from + len] == input[pos + len]
        invariant
            from < pos < n == input@.len(),
            len <= 258,
            pos + len <= n,
            agreeing(input@, from as int, pos as int, len as nat) == agreeing(
                input@,
                from as int,
                pos as int,
                0,
            ),
            forall|k: int| 0 <= k < len ==> input@[from + k] == #[trigger] input@[pos + k],
        decreases 258 - len,
    {
        len = len + 1;
    }
    len
}

/// The match found at `pos`: its length and distance.
pub open spec fn is_match(input: Seq<u8>, pos: int, len: int, dist: int) -> bool {
    &&& 3 <= len <= 258
    &&& 1 <= dist <= 32768
    &&& dist <= pos
    &&& pos + len <= input.len()
    &&& forall|k: int| 0 <= k < len ==> input[pos - dist + k] == #[trigger] input[pos + k]
}

/// The longest match at `pos`, as length and distance, among the
/// candidates of a chain: `candidate`, the one that `prev` names after it,
/// and so on. The chain ends after `tries` candidates, at one that is not
/// within 32768 bytes before `pos`, after a match of 258 bytes, and where
/// `prev` does not lead further back. A match counts from three bytes on and
/// only if it is longer than `best`, the best before it: of two matches of
/// one length the nearer is kept.
pub open spec fn chain_best(
    input: Seq<u8>,
    pos: int,
    prev: Seq<usize>,
    candidate: usize,
    tries: nat,
    best: (usize, usize),
) -> (usize, usize)
    decreases tries,
{
    if tries == 0 || candidate >= pos || pos - candidate > 32768 {
        best
    } else {
        let len = agreeing(input, candidate as int, pos, 0);
        let better = if len >= 3 && len > best.0 {
            (len as usize, (pos - candidate) as usize)
        } else {
            best
        };
        let next = prev[candidate as int % 32768];
        if len >= 258 || next >= candidate {
            better
        } else {
            chain_best(input, pos, prev, next, (tries - 1) as nat, better)
        }
    }
}

/// The longest match at `pos` that the hash chains lead to: the best of the
/// chain that begins at the latest position of the bucket of `pos`. A length
/// of zero stands for no match.
pub open spec fn found_match(
    input: Seq<u8>,
    pos: int,
    head: Seq<usize>,
    prev: Seq<usize>,
    max_chain: nat,
) -> (usize, usize) {
    if pos + 3 > input.len() {
        (0, 0)
    } else {
        chain_best(
            input,
            pos,
            prev,
            head[hash3(input[pos], input[pos + 1], input[pos + 2])],
            max_chain,
            (0, 0),
        )
    }
}

/// Looks for the longest repetition at `pos` among the remembered positions
/// of its hash bucket, the nearest first and at most `max_chain` of them.
/// Returns its length and distance, or a length of zero if there is none of
/// three bytes or more. Of two repetitions of one length the nearer is taken.
fn longest_match(
    input: &[u8],
    pos: usize,
    head: &Vec<usize>,
    prev: &Vec<usize>,
    max_chain: usize,
) -> (m: (usize, usize))
    requires
        pos < input@.len(),
        head@.len() == HASH_SIZE,
        prev@.len() == MAX_DISTANCE,
    ensures
        m == found_match(input@, pos as int, head@, prev@, max_chain as nat),
        m.0 == 0 || is_match(input@, pos as int, m.0 as int, m.1 as int),
{
    if input.len() - pos < 3 {
        return (0, 0);
    }
    let mut best_len: usize = 0;
    let mut best_dist: usize = 0;
    let mut candidate = head[hash_at(input, pos)];
    let mut tries: usize = 0;
    let ghost found = found_match(input@, pos as int, head@, prev@, max_chain as nat);
    while tries < max_chain && candidate < pos && pos - candidate <= MAX_DISTANCE as usize
        invariant
            pos < input@.len(),
            prev@.len() == MAX_DISTANCE,
            tries <= max_chain,
            best_len == 0 || is_match(input@, pos as int, best_len as int, best_dist as int),
            chain_best(
                input@,
                pos as int,
                prev@,
                candidate,
                (max_chain - tries) as nat,
                (best_len, best_dist),
            ) == found,
        ensures
            (best_len, best_dist) == found,
            best_len == 0 || is_match(input@, pos as int, best_len as int, best_dist as int),
        decreases max_chain - tries,
    {
        let len = match_length(input, candidate, pos);
        if len >= MIN_MATCH as usize && len > best_len {
            best_len = len;
            best_dist = pos - candidate;
            assert forall|k: int| 0 <= k < len implies input@[pos - best_dist + k]
                == #[trigger] input@[pos + k] by {
                assert(input@[candidate + k] == input@[pos + k]);
            }
        }
        let next = prev[candidate % (MAX_DISTANCE as usize)];
        if len >= MAX_MATCH as usize || next >= candidate {
            break;
        }
        candidate = next;
        tries = tries + 1;
    }
    (best_len, best_dist)
}

/// The hash tables when the positions before `pos` have been remembered:
/// for each bucket the latest position, and for each position the latest
/// before it in its bucket. A position shares its place in the second table
/// with those a multiple of 32768 bytes away.
pub open spec fn tables_at(input: Seq<u8>, pos: nat) -> (Seq<usize>, Seq<usize>)
    decreases pos,
{
    if pos == 0 {
        (
            Seq::new(HASH_SIZE as nat, |i: int| NO_POSITION),
            Seq::new(MAX_DISTANCE as nat, |i: int| NO_POSITION),
        )
    } else {
        let p = (pos - 1) as nat;
        let (head, prev) = tables_at(input, p);
        if p + 3 <= input.len() {
            let h = hash3(input[p as int], input[p + 1 as int], input[p + 2 as int]);
            (head.update(h, p as usize), prev.update(p as int % 32768, head[h]))
        } else {
            (head, prev)
        }
    }
}

/// The match that the hash chains lead to at `pos`.
pub open spec fn match_at(input: Seq<u8>, pos: nat, max_chain: nat) -> (usize, usize) {
    found_match(input, pos as int, tables_at(input, pos).0, tables_at(input, pos).1, max_chain)
}

/// The token that begins at `pos`: the match found there, unless the search
/// is lazy and finds a longer match one byte on; else the byte.
#[verifier::opaque]
pub open spec fn token_at(input: Seq<u8>, pos: nat, max_chain: nat, lazy: bool) -> Token {
    let found = match_at(input, pos, max_chain);
    let deferred = lazy && pos + 1 < input.len() && found.0 < 258 && match_at(
        input,
        pos + 1,
        max_chain,
    ).0 > found.0;
    if found.0 >= 3 && !deferred {
        Token::Repeat(found.0 as u32, found.1 as u32)
    } else {
        Token::Literal(input[pos as int])
    }
}

/// The tokens of the input from `pos` on.
pub open spec fn tokens_from(input: Seq<u8>, pos: nat, max_chain: nat, lazy: bool) -> Seq<Token>
    decreases input.len() - pos,
{
    if pos >= input.len() {
        Seq::empty()
    } else {
        let token = token_at(input, pos, max_chain, lazy);
        let next = match token {
            Token::Literal(_) => pos + 1,
            Token::Repeat(len, _) => if 3 <= len <= input.len() - pos {
                pos + len as nat
            } else {
                pos + 1
            },
        };
        seq![token] + tokens_from(input, next, max_chain, lazy)
    }
}

/// Describes `input` as a sequence of tokens, trying [`MAX_CHAIN`] earlier
/// positions at each position and preferring a longer match one byte on.
pub fn lempel_ziv(input: &[u8]) -> (tokens: Vec<Token>)
    ensures
        well_formed(tokens@),
        expand(tokens@) == input@,
        tokens@ == tokens_from(input@, 0, MAX_CHAIN as nat, true),
{
    lempel_ziv_with(input, MAX_CHAIN, true)
}

/// Describes `input` as a sequence of tokens.
///
/// At each position at most `max_chain` earlier positions with the same
/// hash are tried for a match. A match is taken where one is found, unless
/// `lazy` is set and the next position has a longer one; then the byte is
/// sent as a literal.
pub fn lempel_ziv_with(input: &[u8], max_chain: usize, lazy: bool) -> (tokens: Vec<Token>)
    ensures
        well_formed(tokens@),
        expand(tokens@) == input@,
        tokens@ == tokens_from(input@, 0, max_chain as nat, lazy),
{
    let n = input.len();
    let mut head: Vec<usize> = vec![NO_POSITION; HASH_SIZE];
    let mut prev: Vec<usize> = vec![NO_POSITION; MAX_DISTANCE as usize];
    let mut tokens: Vec<Token> = Vec::new();
    let mut pos: usize = 0;
    let ghost all = tokens_from(input@, 0, max_chain as nat, lazy);
    proof {
        assert(input@.take(0) =~= Seq::<u8>::empty());
        assert(head@ =~= tables_at(input@, 0).0);
        assert(prev@ =~= tables_at(input@, 0).1);
        assert(tokens@ + all =~= all);
    }
    while pos < n
        invariant
            pos <= n == input@.len(),
            head@ == tables_at(input@, pos as nat).0,
            prev@ == tables_at(input@, pos as nat).1,
            head@.len() == HASH_SIZE,
            prev@.len() == MAX_DISTANCE,
            well_formed(tokens@),
            expand(tokens@) == input@.take(pos as int),
            tokens@ + tokens_from(input@, pos as nat, max_chain as nat, lazy) == all,
        decreases n - pos,
    {
        let ghost rest = tokens_from(input@, pos as nat, max_chain as nat, lazy);
        let (len, dist) = longest_match(input, pos, &head, &prev, max_chain);
        remember(input, pos, &mut head, &mut prev);
        assert(head@ == tables_at(input@, (pos + 1) as nat).0);
        assert(prev@ == tables_at(input@, (pos + 1) as nat).1);
        let mut take_match = len >= MIN_MATCH as usize;
        if lazy && take_match && n - pos > 1 && len < MAX_MATCH as usize {
            let (next_len, _) = longest_match(input, pos + 1, &head, &prev, max_chain);
            if next_len > len {
                take_match = false;
            }
        }
        let token = if take_match {
            Token::Repeat(len as u32, dist as u32)
        } else {
            Token::Literal(input[pos])
        };
        let step: usize = if take_match { len } else { 1 };
        proof {
            lemma_expand_push(Seq::empty(), tokens@, token);
            if take_match {
                lemma_copy_back_prefix(input@, pos as int, len as nat, dist as int);
            } else {
                assert(input@.take(pos as int).push(input@[pos as int]) =~= input@.take(pos + 1));
            }
            assert(token == token_at(input@, pos as nat, max_chain as nat, lazy)) by {
                reveal(token_at);
            }
            assert(rest == seq![token] + tokens_from(
                input@,
                (pos + step) as nat,
                max_chain as nat,
                lazy,
            ));
            assert(tokens@.push(token) + tokens_from(
                input@,
                (pos + step) as nat,
                max_chain as nat,
                lazy,
            ) =~= tokens@ + rest);
        }
        tokens.push(token);
        let end = pos + step;
        pos = pos + 1;
        while pos < end
            invariant
                pos <= end <= n == input@.len(),
                head@ == tables_at(input@, pos as nat).0,
                prev@ == tables_at(input@, pos as nat).1,
                head@.len() == HASH_SIZE,
                prev@.len() == MAX_DISTANCE,
            decreases end - pos,
        {
            remember(input, pos, &mut head, &mut prev);
            pos = pos + 1;
        }
    }
    proof {
        assert(input@.take(n as int) =~= input@);
        assert(tokens@ + Seq::<Token>::empty() =~= tokens@);
    }
    tokens
}

/// Each byte from the `p`-th on repeats the byte `p` places before it.
pub open spec fn periodic(input: Seq<u8>, p: int) -> bool {
    forall|i: int| p <= i < input.len() ==> #[trigger] input[i] == input[i - p]
}

/// The first `p` bytes differ from one another.
pub open spec fn distinct_start(input: Seq<u8>, p: int) -> bool {
    forall|i: int, j: int| 0 <= i < j < p ==> #[trigger] input[i] != #[trigger] input[j]
}

/// The hash bucket of the position `q`.
pub open spec fn bucket_at(input: Seq<u8>, q: int) -> int {
    hash3(input[q], input[q + 1], input[q + 2])
}

/// Bytes that agree do not reach beyond the end.
proof fn lemma_agreeing_bound(input: Seq<u8>, from: int, pos: int, len: nat)
    requires
        pos + len <= input.len(),
    ensures
        pos + agreeing(input, from, pos, len) <= input.len(),
    decreases 258 - len,
{
    if len < 258 && pos + len < input.len() && input[from + len] == input[pos + len] {
        lemma_agreeing_bound(input, from, pos, len + 1);
    }
}

/// In a periodic input all the bytes from the period on agree with the
/// bytes from the start on.
proof fn lemma_agreeing_periodic(input: Seq<u8>, p: int, len: nat)
    requires
        1 <= p,
        periodic(input, p),
        len <= input.len() - p <= 258,
    ensures
        agreeing(input, 0, p, len) == input.len() - p,
    decreases input.len() - p - len,
{
    if len < input.len() - p {
        assert(input[p + len] == input[p + len - p]);
        lemma_agreeing_periodic(input, p, len + 1);
    }
}

/// A chain of candidates of which none agrees with the position in three
/// bytes leaves the best match as it was.
proof fn lemma_chain_no_match(
    input: Seq<u8>,
    pos: int,
    prev: Seq<usize>,
    candidate: usize,
    tries: nat,
    best: (usize, usize),
)
    requires
        forall|c: int| 0 <= c < pos ==> #[trigger] agreeing(input, c, pos, 0) < 3,
    ensures
        chain_best(input, pos, prev, candidate, tries, best) == best,
    decreases tries,
{
    if !(tries == 0 || candidate >= pos || pos - candidate > 32768) {
        assert(agreeing(input, candidate as int, pos, 0) < 3);
        let next = prev[candidate as int % 32768];
        if next < candidate {
            lemma_chain_no_match(input, pos, prev, next, (tries - 1) as nat, best);
        }
    }
}

/// No match of a chain reaches beyond the end.
proof fn lemma_chain_bound(
    input: Seq<u8>,
    pos: int,
    prev: Seq<usize>,
    candidate: usize,
    tries: nat,
    best: (usize, usize),
)
    requires
        0 <= pos <= input.len(),
        pos + best.0 <= input.len(),
    ensures
        pos + chain_best(input, pos, prev, candidate, tries, best).0 <= input.len(),
    decreases tries,
{
    if !(tries == 0 || candidate >= pos || pos - candidate > 32768) {
        lemma_agreeing_bound(input, candidate as int, pos, 0);
        let len = agreeing(input, candidate as int, pos, 0);
        let better = if len >= 3 && len > best.0 {
            (len as usize, (pos - candidate) as usize)
        } else {
            best
        };
        let next = prev[candidate as int % 32768];
        if !(len >= 258 || next >= candidate) {
            lemma_chain_bound(input, pos, prev, next, (tries - 1) as nat, better);
        }
    }
}

/// The chains of the bucket of the first position lead back to it: when
/// the positions before `pos` have been remembered, the latest position of
/// that bucket is one of them, and each of them but the first is followed by
/// an earlier one of them.
pub open spec fn leads_to_start(input: Seq<u8>, pos: nat) -> bool {
    let (head, prev) = tables_at(input, pos);
    let start = bucket_at(input, 0);
    &&& head.len() == HASH_SIZE
    &&& prev.len() == MAX_DISTANCE
    &&& head[start] < pos && bucket_at(input, head[start] as int) == start
    &&& prev[0] == NO_POSITION
    &&& forall|q: int|
        1 <= q < pos && bucket_at(input, q) == start ==> (#[trigger] prev[q]) < q && bucket_at(
            input,
            prev[q] as int,
        ) == start
}

proof fn lemma_tables_len(input: Seq<u8>, pos: nat)
    ensures
        tables_at(input, pos).0.len() == HASH_SIZE,
        tables_at(input, pos).1.len() == MAX_DISTANCE,
    decreases pos,
{
    if pos > 0 {
        lemma_tables_len(input, (pos - 1) as nat);
    }
}

proof fn lemma_leads_to_start(input: Seq<u8>, pos: nat)
    requires
        1 <= pos <= 32768,
        pos + 2 <= input.len(),
    ensures
        leads_to_start(input, pos),
    decreases pos,
{
    let p = (pos - 1) as nat;
    let (head, prev) = tables_at(input, p);
    let start = bucket_at(input, 0);
    let h = bucket_at(input, p as int);
    lemma_tables_len(input, p);
    lemma_tables_len(input, pos);
    let (head2, prev2) = tables_at(input, pos);
    assert(head2 == head.update(h, p as usize));
    assert(prev2 == prev.update(p as int % 32768, head[h]));
    assert(p as int % 32768 == p);
    if p == 0 {
        assert(head[h] == NO_POSITION);
    } else {
        lemma_leads_to_start(input, p);
        assert forall|q: int| 1 <= q < pos && bucket_at(input, q) == start implies (
        #[trigger] prev2[q]) < q && bucket_at(input, prev2[q] as int) == start by {
            if q < p {
                assert(prev2[q] == prev[q]);
            }
        }
    }
}

/// In a periodic input whose first `p` bytes differ, the chain of the
/// `p`-th position leads to the first position, and that is its match.
proof fn lemma_chain_to_start(
    input: Seq<u8>,
    p: nat,
    prev: Seq<usize>,
    candidate: usize,
    tries: nat,
)
    requires
        1 <= p <= 32768,
        3 <= input.len() - p <= 258,
        periodic(input, p as int),
        distinct_start(input, p as int),
        prev == tables_at(input, p).1,
        leads_to_start(input, p),
        candidate < p,
        bucket_at(input, candidate as int) == bucket_at(input, 0),
        tries > candidate,
    ensures
        chain_best(input, p as int, prev, candidate, tries, (0, 0)) == (
            (input.len() - p) as usize,
            p as usize,
        ),
    decreases candidate,
{
    assert(candidate as int % 32768 == candidate);
    if candidate == 0 {
        lemma_agreeing_periodic(input, p as int, 0);
    } else {
        assert(input[p as int] == input[p - p]);
        assert(input[candidate as int] != input[0]);
        assert(agreeing(input, candidate as int, p as int, 0) == 0);
        let next = prev[candidate as int];
        lemma_chain_to_start(input, p, prev, next, (tries - 1) as nat);
    }
}

/// In a periodic input whose first `p` bytes differ, the token at a
/// position of the first period is the byte.
proof fn lemma_periodic_literal(input: Seq<u8>, p: nat, pos: nat, max_chain: nat, lazy: bool)
    requires
        1 <= p <= 32768,
        3 <= input.len() - p <= 258,
        distinct_start(input, p as int),
        pos < p,
    ensures
        token_at(input, pos, max_chain, lazy) == Token::Literal(input[pos as int]),
{
    let (head, prev) = tables_at(input, pos);
    assert forall|c: int| 0 <= c < pos implies #[trigger] agreeing(input, c, pos as int, 0)
        < 3 by {
        assert(input[c] != input[pos as int]);
    }
    lemma_chain_no_match(
        input,
        pos as int,
        prev,
        head[bucket_at(input, pos as int)],
        max_chain,
        (0, 0),
    );
    assert(match_at(input, pos, max_chain) == (0usize, 0usize));
    reveal(token_at);
}

/// In a periodic input whose first `p` bytes differ, the match found at the
/// `p`-th position is all the rest, at distance `p`.
proof fn lemma_periodic_match(input: Seq<u8>, p: nat, max_chain: nat)
    requires
        1 <= p <= 32768,
        p <= max_chain,
        3 <= input.len() - p <= 258,
        periodic(input, p as int),
        distinct_start(input, p as int),
    ensures
        match_at(input, p, max_chain) == ((input.len() - p) as usize, p as usize),
{
    let (head, prev) = tables_at(input, p);
    lemma_leads_to_start(input, p);
    assert(input[p as int] == input[p - p]);
    assert(input[p + 1 as int] == input[p + 1 - p]);
    assert(input[p + 2 as int] == input[p + 2 - p]);
    assert(bucket_at(input, p as int) == bucket_at(input, 0));
    lemma_chain_to_start(input, p, prev, head[bucket_at(input, 0)], max_chain);
}

/// No match reaches beyond the end.
proof fn lemma_match_bound(input: Seq<u8>, pos: nat, max_chain: nat)
    requires
        pos <= input.len(),
    ensures
        pos + match_at(input, pos, max_chain).0 <= input.len(),
{
    let (head, prev) = tables_at(input, pos);
    if pos + 3 <= input.len() {
        lemma_chain_bound(
            input,
            pos as int,
            prev,
            head[bucket_at(input, pos as int)],
            max_chain,
            (0, 0),
        );
    }
}

/// In a periodic input whose first `p` bytes differ, the token at the
/// `p`-th position is the match of all the rest.
proof fn lemma_periodic_repeat(input: Seq<u8>, p: nat, max_chain: nat, lazy: bool)
    requires
        1 <= p <= 32768,
        p <= max_chain,
        3 <= input.len() - p <= 258,
        periodic(input, p as int),
        distinct_start(input, p as int),
    ensures
        token_at(input, p, max_chain, lazy) == Token::Repeat(
            (input.len() - p) as u32,
            p as u32,
        ),
{
    lemma_periodic_match(input, p, max_chain);
    lemma_match_bound(input, p + 1, max_chain);
    reveal(token_at);
}

/// The tokens of a periodic input whose first `p` bytes differ, from a
/// position in the first period on: a literal for each byte of what is left
/// of the first period, and one match for all the rest.
proof fn lemma_periodic_tokens_from(
    input: Seq<u8>,
    p: nat,
    pos: nat,
    max_chain: nat,
    lazy: bool,
)
    requires
        1 <= p <= 32768,
        p <= max_chain,
        3 <= input.len() - p <= 258,
        periodic(input, p as int),
        distinct_start(input, p as int),
        pos <= p,
    ensures
        tokens_from(input, pos, max_chain, lazy) == Seq::new(
            (p - pos) as nat,
            |i: int| Token::Literal(input[pos + i]),
        ).push(Token::Repeat((input.len() - p) as u32, p as u32)),
    decreases p - pos,
{
    let n = input.len();
    let last = Token::Repeat((n - p) as u32, p as u32);
    let expected = Seq::new((p - pos) as nat, |i: int| Token::Literal(input[pos + i])).push(last);
    if pos < p {
        lemma_periodic_literal(input, p, pos, max_chain, lazy);
        lemma_periodic_tokens_from(input, p, pos + 1, max_chain, lazy);
        let tail = tokens_from(input, pos + 1, max_chain, lazy);
        assert(tokens_from(input, pos, max_chain, lazy) == seq![Token::Literal(input[pos as int])]
            + tail);
        assert(seq![Token::Literal(input[pos as int])] + tail =~= expected);
    } else {
        lemma_periodic_repeat(input, p, max_chain, lazy);
        assert(tokens_from(input, n, max_chain, lazy) =~= Seq::<Token>::empty());
        assert(tokens_from(input, p, max_chain, lazy) == seq![last] + tokens_from(
            input,
            n,
            max_chain,
            lazy,
        ));
        assert(seq![last] + Seq::<Token>::empty() =~= expected);
    }
}

/// The tokens of a repeated phrase. An input that repeats its first `p`
/// bytes, which differ from one another, and is 3 to 258 bytes longer than
/// they, is described by a literal for each of the `p` bytes and one match of
/// distance `p` for all the rest; provided that `p` candidates are tried.
///
/// With `p == 1` this is a run of one byte: a literal and a match of
/// distance one.
pub proof fn lemma_periodic_tokens(input: Seq<u8>, p: nat, max_chain: nat, lazy: bool)
    requires
        1 <= p <= 32768,
        p <= max_chain,
        3 <= input.len() - p <= 258,
        periodic(input, p as int),
        distinct_start(input, p as int),
    ensures
        tokens_from(input, 0, max_chain, lazy) == Seq::new(
            p,
            |i: int| Token::Literal(input[i]),
        ).push(Token::Repeat((input.len() - p) as u32, p as u32)),
{
    lemma_periodic_tokens_from(input, p, 0, max_chain, lazy);
    assert(Seq::new((p - 0) as nat, |i: int| Token::Literal(input[0 + i])) =~= Seq::new(
        p,
        |i: int| Token::Literal(input[i]),
    ));
}

} // verus!
