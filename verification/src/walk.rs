//! What the walk over the zero runs of a block hands out.

use vstd::prelude::*;
use crate::common;
use crate::encoding;
use crate::encoding::Token;
use crate::roundtrip;
use crate::roundtrip::expand;
use crate::stream;

verus! {

/// A stretch of a block: bytes to be coded one at a time, or a run of zeros to be coded as a
/// match.
pub enum Stretch {
    /// The bytes from `from` up to `to`.
    Literals { from: int, to: int },
    /// So many zeros.
    ZeroRun { length: nat },
}

/// The tokens of a stretch.
pub open spec fn stretch_tokens(block: Seq<u8>, stretch: Stretch) -> Seq<Token> {
    match stretch {
        Stretch::Literals { from, to } => encoding::literals(block.subrange(from, to)),
        Stretch::ZeroRun { length } => seq![Token::Run { length }],
    }
}

/// The tokens of stretches, one after the other.
pub open spec fn all_tokens(block: Seq<u8>, stretches: Seq<Stretch>) -> Seq<Token>
    decreases stretches.len(),
{
    if stretches.len() == 0 {
        Seq::empty()
    } else {
        all_tokens(block, stretches.drop_last()) + stretch_tokens(block, stretches.last())
    }
}

/// The bytes of a stretch.
pub open spec fn stretch_bytes(block: Seq<u8>, stretch: Stretch) -> Seq<u8> {
    match stretch {
        Stretch::Literals { from, to } => block.subrange(from, to),
        Stretch::ZeroRun { length } => common::zeros(length),
    }
}

/// The bytes of stretches, one after the other.
pub open spec fn all_bytes(block: Seq<u8>, stretches: Seq<Stretch>) -> Seq<u8>
    decreases stretches.len(),
{
    if stretches.len() == 0 {
        Seq::empty()
    } else {
        all_bytes(block, stretches.drop_last()) + stretch_bytes(block, stretches.last())
    }
}

proof fn lemma_expand_concat(out: Seq<u8>, a: Seq<Token>, b: Seq<Token>)
    ensures
        expand(out, a + b) == expand(expand(out, a), b),
    decreases a.len(),
{
    if a.len() == 0 {
        assert(a + b =~= b);
    } else {
        assert((a + b).skip(1) =~= a.skip(1) + b);
        match a[0] {
            Token::Literal { byte } => {
                lemma_expand_concat(out.push(byte), a.skip(1), b);
            },
            Token::Run { length } => {
                lemma_expand_concat(stream::copy_match(out, 1, length), a.skip(1), b);
            },
        }
    }
}

proof fn lemma_expand_literals(out: Seq<u8>, bytes: Seq<u8>)
    ensures
        expand(out, encoding::literals(bytes)) == out + bytes,
    decreases bytes.len(),
{
    let tokens = encoding::literals(bytes);
    if bytes.len() == 0 {
        assert(out + bytes =~= out);
    } else {
        assert(tokens.skip(1) =~= encoding::literals(bytes.skip(1)));
        lemma_expand_literals(out.push(bytes[0]), bytes.skip(1));
        assert(out.push(bytes[0]) + bytes.skip(1) =~= out + bytes);
    }
}

/// Some of the matches of a run leave a zero behind.
proof fn lemma_pieces_prefix(out: Seq<u8>, n: nat, j: int)
    requires
        out.len() > 0,
        out.last() == 0,
        n == 0 || n >= 3,
        0 <= j <= encoding::pieces(n).len(),
    ensures
        expand(out, encoding::pieces(n).take(j)).len() > 0,
        expand(out, encoding::pieces(n).take(j)).last() == 0,
    decreases n,
{
    if j > 0 {
        let k = encoding::piece(n);
        let m = (n - k) as nat;
        let part = encoding::pieces(n).take(j);
        roundtrip::lemma_copy_zeros(out, k);
        assert(part[0] == (Token::Run { length: k }));
        assert(part.skip(1) =~= encoding::pieces(m).take(j - 1));
        lemma_pieces_prefix(out + Seq::new(k, |i: int| 0u8), m, j - 1);
    }
}

/// The byte in front of a match is a zero.
proof fn lemma_zero_before(out: Seq<u8>, block: Seq<u8>, i: int, k: int)
    requires
        0 <= i <= block.len(),
        0 <= k < encoding::tokens(block, i).len(),
        encoding::tokens(block, i)[k] is Run,
    ensures
        expand(out, encoding::tokens(block, i).take(k)).len() > 0,
        expand(out, encoding::tokens(block, i).take(k)).last() == 0,
    decreases block.len() - i,
{
    let all = encoding::tokens(block, i);
    let part = all.take(k);
    if encoding::run_at(block, i) {
        let n = encoding::zero_run(block, i);
        encoding::lemma_zero_run(block, i);
        let rest = encoding::tokens(block, i + n);
        let m = (n - 1) as nat;
        let matches = encoding::pieces(m);
        let grown = out.push(0u8);
        assert(all[0] == (Token::Literal { byte: 0 }));
        assert(k > 0);
        if k - 1 < matches.len() {
            assert(part.skip(1) =~= matches.take(k - 1));
            lemma_pieces_prefix(grown, m, k - 1);
        } else {
            let j = k - 1 - matches.len();
            assert(all[k] == rest[j]);
            assert(part.skip(1) =~= matches + rest.take(j));
            roundtrip::lemma_expand_pieces(grown, m, rest.take(j));
            lemma_zero_before(grown + Seq::new(m, |x: int| 0u8), block, i + n, j);
        }
    } else {
        let rest = encoding::tokens(block, i + 1);
        assert(all[0] == (Token::Literal { byte: block[i] }));
        assert(k > 0);
        assert(all[k] == rest[k - 1]);
        assert(part.skip(1) =~= rest.take(k - 1));
        lemma_zero_before(out.push(block[i]), block, i + 1, k - 1);
    }
}

/// The tokens of the first stretches come first.
proof fn lemma_tokens_prefix(block: Seq<u8>, stretches: Seq<Stretch>, i: int)
    requires
        0 <= i <= stretches.len(),
    ensures
        ({
            let part = all_tokens(block, stretches.take(i));
            let all = all_tokens(block, stretches);
            part.len() <= all.len() && all.take(part.len() as int) == part
        }),
    decreases stretches.len(),
{
    let all = all_tokens(block, stretches);
    if i == stretches.len() {
        assert(stretches.take(i) =~= stretches);
        assert(all.take(all.len() as int) =~= all);
    } else {
        let front = stretches.drop_last();
        lemma_tokens_prefix(block, front, i);
        assert(front.take(i) =~= stretches.take(i));
        let part = all_tokens(block, stretches.take(i));
        assert(all.take(part.len() as int) =~= all_tokens(block, front).take(part.len() as int));
    }
}

/// Whether `stretches` are handed out for a block: together they are its tokens, and no
/// stretch of literals is empty.
pub open spec fn handed_out(block: Seq<u8>, stretches: Seq<Stretch>) -> bool {
    &&& all_tokens(block, stretches) == encoding::tokens(block, 0)
    &&& forall|i: int|
        0 <= i < stretches.len() ==> (#[trigger] stretches[i] matches Stretch::Literals { from, to }
            ==> 0 <= from < to <= block.len())
}

proof fn lemma_walked(block: Seq<u8>, stretches: Seq<Stretch>, i: int)
    requires
        handed_out(block, stretches),
        0 <= i <= stretches.len(),
    ensures
        expand(Seq::empty(), all_tokens(block, stretches.take(i))) == all_bytes(
            block,
            stretches.take(i),
        ),
        i < stretches.len() && stretches[i] is ZeroRun ==> {
            let before = all_bytes(block, stretches.take(i));
            before.len() > 0 && before.last() == 0 && 3 <= stretches[i]->length <= 258
        },
    decreases i,
{
    let tokens = encoding::tokens(block, 0);
    let none = Seq::<u8>::empty();
    let part = stretches.take(i);
    if i > 0 {
        let front = part.drop_last();
        assert(front =~= stretches.take(i - 1));
        lemma_walked(block, stretches, i - 1);
        lemma_expand_concat(none, all_tokens(block, front), stretch_tokens(block, part.last()));
        let before = all_bytes(block, front);
        match stretches[i - 1] {
            Stretch::Literals { from, to } => {
                lemma_expand_literals(before, block.subrange(from, to));
            },
            Stretch::ZeroRun { length } => {
                roundtrip::lemma_copy_zeros(before, length);
                let one = seq![Token::Run { length }];
                assert(one.skip(1) =~= Seq::empty());
                let grown = stream::copy_match(before, 1, length);
                assert(expand(grown, one.skip(1)) == grown);
                assert(expand(before, one) == grown);
                assert(common::zeros(length) =~= Seq::new(length, |x: int| 0u8));
            },
        }
    }
    if i < stretches.len() && stretches[i] is ZeroRun {
        let k = all_tokens(block, part).len() as int;
        let next = stretches.take(i + 1);
        assert(next.drop_last() =~= part);
        lemma_tokens_prefix(block, stretches, i);
        lemma_tokens_prefix(block, stretches, i + 1);
        let longer = all_tokens(block, next);
        assert(longer[k] == (Token::Run { length: stretches[i]->length }));
        assert(tokens.take(k + 1)[k] == tokens[k]);
        lemma_zero_before(none, block, 0, k);
        roundtrip::lemma_expand_tokens(none, block, 0);
    }
}

/// Whether stretches cover a block: expanded in order they are the block, no stretch of
/// literals is empty, every run is between 3 and 258 zeros long, and the byte in front of it
/// is a zero.
pub open spec fn covers(block: Seq<u8>, stretches: Seq<Stretch>) -> bool {
    &&& all_bytes(block, stretches) == block
    &&& forall|i: int|
        0 <= i < stretches.len() ==> (#[trigger] stretches[i] matches Stretch::Literals { from, to }
            ==> 0 <= from < to <= block.len())
    &&& forall|i: int|
        0 <= i < stretches.len() ==> (#[trigger] stretches[i] matches Stretch::ZeroRun { length }
            ==> {
            let before = all_bytes(block, stretches.take(i));
            3 <= length <= 258 && before.len() > 0 && before.last() == 0
        })
}

/// The stretches that are handed out for a block cover it.
pub proof fn law_walk_covers_the_block(block: Seq<u8>, stretches: Seq<Stretch>)
    requires
        handed_out(block, stretches),
    ensures
        covers(block, stretches),
{
    assert forall|i: int| 0 <= i < stretches.len() implies (
    #[trigger] stretches[i] matches Stretch::ZeroRun { length } ==> {
        let before = all_bytes(block, stretches.take(i));
        3 <= length <= 258 && before.len() > 0 && before.last() == 0
    }) by {
        lemma_walked(block, stretches, i);
    }
    lemma_walked(block, stretches, stretches.len() as int);
    assert(stretches.take(stretches.len() as int) =~= stretches);
    roundtrip::lemma_expand_tokens(Seq::empty(), block, 0);
    assert(Seq::<u8>::empty() + block.skip(0) =~= block);
}

/// One more stretch is handed out.
pub proof fn lemma_one_more(
    block: Seq<u8>,
    stretches: Seq<Stretch>,
    next: Stretch,
    before: Seq<Token>,
    after: Seq<Token>,
)
    requires
        before == stretch_tokens(block, next) + after,
    ensures
        all_tokens(block, stretches.push(next)) + after == all_tokens(block, stretches) + before,
{
    assert(stretches.push(next).drop_last() =~= stretches);
    assert(all_tokens(block, stretches.push(next)) + after =~= all_tokens(block, stretches)
        + before);
}

} // verus!
