//! Which shard owns a repository.

use crate::digest;
use crate::digest::Hasher;
use crate::text;
use vstd::prelude::*;
use vstd::string::*;
use vstd::utf8::*;

verus! {

/// The number that bytes denote, the most significant first.
pub open spec fn big_endian(bytes: Seq<u8>) -> nat
    decreases bytes.len(),
{
    if bytes.len() == 0 {
        0
    } else {
        big_endian(bytes.drop_last()) * 256 + bytes.last() as nat
    }
}

/// The weight of a shard for a repository: the first eight bytes of the hash of the shard's
/// URL, a bar and the repository's name.
pub open spec fn weight(shard: Seq<char>, repo: Seq<char>) -> nat {
    big_endian(
        digest::sha256(encode_utf8(shard) + seq![124u8] + encode_utf8(repo)).take(8),
    )
}

spec fn power_of_256(n: nat) -> nat
    decreases n,
{
    if n == 0 {
        1
    } else {
        256 * power_of_256((n - 1) as nat)
    }
}

proof fn big_endian_bound(bytes: Seq<u8>)
    ensures
        big_endian(bytes) < power_of_256(bytes.len()),
    decreases bytes.len(),
{
    if bytes.len() > 0 {
        big_endian_bound(bytes.drop_last());
    }
}

fn weight_of(shard: &str, repo: &str) -> (w: u64)
    ensures
        w == weight(shard@, repo@),
{
    let mut h = Hasher::new();
    h.update(shard.as_bytes());
    let bar: Vec<u8> = vec![124u8];
    h.update(bar.as_slice());
    h.update(repo.as_bytes());
    proof {
        assert(bar@ =~= seq![124u8]);
        assert(h@ =~= encode_utf8(shard@) + seq![124u8] + encode_utf8(repo@));
    }
    let hash = h.finish();
    let ghost first = hash@.take(8);
    let mut acc: u64 = 0;
    let mut i: usize = 0;
    while i < 8
        invariant
            i <= 8,
            hash@.len() == 32,
            first == hash@.take(8),
            acc == big_endian(first.take(i as int)),
        decreases 8 - i,
    {
        proof {
            let next = first.take(i + 1);
            assert(next.drop_last() =~= first.take(i as int));
            assert(next.last() == hash@[i as int]);
            big_endian_bound(next);
            assert(power_of_256(next.len()) <= 0x1_0000_0000_0000_0000) by {
                reveal_with_fuel(power_of_256, 9);
            }
        }
        acc = acc * 256 + hash[i] as u64;
        i += 1;
    }
    proof {
        assert(first.take(8) =~= first);
    }
    acc
}

/// The position of the heaviest shard for a repository, the last of them where several weigh
/// the same; `-1` where there is none.
pub open spec fn heaviest(repo: Seq<char>, shards: Seq<Seq<char>>) -> int
    decreases shards.len(),
{
    if shards.len() == 0 {
        -1
    } else {
        let rest = heaviest(repo, shards.drop_last());
        if rest < 0 || weight(shards.last(), repo) >= weight(shards[rest], repo) {
            shards.len() - 1
        } else {
            rest
        }
    }
}

/// The shard that owns a repository; no shard owns it where there is none.
pub open spec fn owner_of(repo: Seq<char>, shards: Seq<Seq<char>>) -> Seq<char> {
    if shards.len() == 0 {
        Seq::empty()
    } else {
        shards[heaviest(repo, shards)]
    }
}

/// Position `k` holds a shard that none outweighs, and that every later one is lighter than.
pub open spec fn is_heaviest(repo: Seq<char>, shards: Seq<Seq<char>>, k: int) -> bool {
    &&& 0 <= k < shards.len()
    &&& forall|i: int|
        0 <= i < shards.len() ==> weight(#[trigger] shards[i], repo) <= weight(shards[k], repo)
    &&& forall|i: int|
        k < i < shards.len() ==> weight(#[trigger] shards[i], repo) < weight(shards[k], repo)
}

/// The heaviest shard outweighs every other, or comes after it and weighs the same.
pub proof fn heaviest_is_heaviest(repo: Seq<char>, shards: Seq<Seq<char>>)
    requires
        shards.len() > 0,
    ensures
        is_heaviest(repo, shards, heaviest(repo, shards)),
    decreases shards.len(),
{
    if shards.len() > 1 {
        let rest = shards.drop_last();
        heaviest_is_heaviest(repo, rest);
        let k = heaviest(repo, shards);
        assert forall|i: int| 0 <= i < shards.len() implies weight(#[trigger] shards[i], repo)
            <= weight(shards[k], repo) by {
            if i < rest.len() {
                assert(rest[i] == shards[i]);
            }
        }
        assert forall|i: int| k < i < shards.len() implies weight(#[trigger] shards[i], repo)
            < weight(shards[k], repo) by {
            if i < rest.len() {
                assert(rest[i] == shards[i]);
            }
        }
    } else {
        reveal_with_fuel(heaviest, 2);
    }
}

proof fn heaviest_unique(repo: Seq<char>, shards: Seq<Seq<char>>, k: int)
    requires
        is_heaviest(repo, shards, k),
    ensures
        heaviest(repo, shards) == k,
{
    heaviest_is_heaviest(repo, shards);
    let h = heaviest(repo, shards);
    assert(weight(shards[h], repo) <= weight(shards[k], repo));
    assert(weight(shards[k], repo) <= weight(shards[h], repo));
}

/// Every node agrees on the shard that owns a repository.
pub fn owner<'a>(repo: &str, shards: &'a [String]) -> (o: &'a str)
    ensures
        o@ == owner_of(repo@, text::views(shards@)),
{
    if shards.len() == 0 {
        proof {
            reveal_strlit("");
            assert(""@ =~= Seq::empty());
        }
        return "";
    }
    let ghost all = text::views(shards@);
    let mut best: usize = 0;
    let mut top: u64 = weight_of(shards[0].as_str(), repo);
    let mut i: usize = 1;
    proof {
        reveal_with_fuel(heaviest, 2);
        assert(heaviest(repo@, all.take(1)) == 0);
    }
    while i < shards.len()
        invariant
            1 <= i <= shards@.len(),
            all == text::views(shards@),
            best < i,
            best == heaviest(repo@, all.take(i as int)),
            top == weight(all[best as int], repo@),
        decreases shards@.len() - i,
    {
        let w = weight_of(shards[i].as_str(), repo);
        proof {
            assert(all.take(i + 1).drop_last() =~= all.take(i as int));
            assert(all.take(i + 1).last() == all[i as int]);
        }
        if w >= top {
            top = w;
            best = i;
        }
        i += 1;
    }
    proof {
        assert(all.take(i as int) =~= all);
    }
    shards[best].as_str()
}

/// A repository is owned by one of the shards.
pub proof fn owner_is_listed(repo: Seq<char>, shards: Seq<Seq<char>>)
    requires
        shards.len() > 0,
    ensures
        shards.contains(owner_of(repo, shards)),
{
    heaviest_is_heaviest(repo, shards);
}

/// Adding a shard moves a repository to the new shard or not at all.
pub proof fn adding_moves_only_to_the_new_shard(
    repo: Seq<char>,
    shards: Seq<Seq<char>>,
    at: int,
    added: Seq<char>,
)
    requires
        shards.len() > 0,
        0 <= at <= shards.len(),
    ensures
        owner_of(repo, shards.insert(at, added)) == owner_of(repo, shards) || owner_of(
            repo,
            shards.insert(at, added),
        ) == added,
{
    let more = shards.insert(at, added);
    heaviest_is_heaviest(repo, more);
    let h = heaviest(repo, more);
    if h != at {
        let k = if h < at {
            h
        } else {
            h - 1
        };
        assert(shards[k] == more[h]);
        assert forall|i: int| 0 <= i < shards.len() implies weight(#[trigger] shards[i], repo)
            <= weight(shards[k], repo) by {
            assert(shards[i] == more[if i < at {
                i
            } else {
                i + 1
            }]);
        }
        assert forall|i: int| k < i < shards.len() implies weight(#[trigger] shards[i], repo)
            < weight(shards[k], repo) by {
            assert(shards[i] == more[if i < at {
                i
            } else {
                i + 1
            }]);
        }
        heaviest_unique(repo, shards, k);
    }
}

/// Removing a shard moves only the repositories that it owned.
pub proof fn removing_moves_only_what_was_owned(repo: Seq<char>, shards: Seq<Seq<char>>, at: int)
    requires
        0 <= at < shards.len(),
        at != heaviest(repo, shards),
    ensures
        owner_of(repo, shards.remove(at)) == owner_of(repo, shards),
{
    let fewer = shards.remove(at);
    heaviest_is_heaviest(repo, shards);
    let h = heaviest(repo, shards);
    let k = if h < at {
        h
    } else {
        h - 1
    };
    assert(fewer[k] == shards[h]);
    assert forall|i: int| 0 <= i < fewer.len() implies weight(#[trigger] fewer[i], repo) <= weight(
        fewer[k],
        repo,
    ) by {
        assert(fewer[i] == shards[if i < at {
            i
        } else {
            i + 1
        }]);
    }
    assert forall|i: int| k < i < fewer.len() implies weight(#[trigger] fewer[i], repo) < weight(
        fewer[k],
        repo,
    ) by {
        assert(fewer[i] == shards[if i < at {
            i
        } else {
            i + 1
        }]);
    }
    heaviest_unique(repo, fewer, k);
}

/// Nodes that list the same shards in different orders agree, as long as no two shards weigh
/// the same.
pub proof fn order_does_not_matter(repo: Seq<char>, a: Seq<Seq<char>>, b: Seq<Seq<char>>)
    requires
        a.to_set() == b.to_set(),
        forall|x: Seq<char>, y: Seq<char>|
            #![trigger weight(x, repo), weight(y, repo)]
            a.contains(x) && a.contains(y) && weight(x, repo) == weight(y, repo) ==> x == y,
    ensures
        owner_of(repo, a) == owner_of(repo, b),
{
    if a.len() == 0 || b.len() == 0 {
        if a.len() > 0 {
            assert(a.to_set().contains(a[0]));
            assert(b.contains(a[0]));
        }
        if b.len() > 0 {
            assert(b.to_set().contains(b[0]));
            assert(a.contains(b[0]));
        }
    } else {
        heaviest_is_heaviest(repo, a);
        heaviest_is_heaviest(repo, b);
        let x = owner_of(repo, a);
        let y = owner_of(repo, b);
        assert(a.to_set().contains(x));
        assert(b.to_set().contains(y));
        assert(b.contains(x) && a.contains(y));
        assert(a[a.index_of(y)] == y);
        assert(b[b.index_of(x)] == x);
        assert(weight(x, repo) == weight(y, repo));
    }
}

/// A repository is owned by a listed shard that no other outweighs; of several that weigh the
/// same the last one in the list owns it.
pub proof fn the_owner_is_the_heaviest(repo: Seq<char>, shards: Seq<Seq<char>>)
    requires
        shards.len() > 0,
    ensures
        exists|k: int|
            0 <= k < shards.len() && #[trigger] shards[k] == owner_of(repo, shards) && (forall|
                i: int,
            |
                0 <= i < shards.len() ==> weight(#[trigger] shards[i], repo) <= weight(
                    shards[k],
                    repo,
                )) && (forall|i: int|
                k < i < shards.len() ==> weight(#[trigger] shards[i], repo) < weight(
                    shards[k],
                    repo,
                )),
{
    heaviest_is_heaviest(repo, shards);
    let k = heaviest(repo, shards);
    assert(shards[k] == owner_of(repo, shards));
}

/// What a shard weighs for a repository: the first eight bytes of the hash of `shard|repo`, read
/// as one number, the first of them counting most.
pub proof fn what_a_shard_weighs(shard: Seq<char>, repo: Seq<char>)
    ensures
        ({
            let h = digest::sha256(encode_utf8(shard) + seq![124u8] + encode_utf8(repo));
            h.len() == 32 ==> weight(shard, repo) == h[0] * 0x100_0000_0000_0000 + h[1]
                * 0x1_0000_0000_0000 + h[2] * 0x100_0000_0000 + h[3] * 0x1_0000_0000 + h[4]
                * 0x100_0000 + h[5] * 0x1_0000 + h[6] * 0x100 + h[7]
        }),
{
    let h = digest::sha256(encode_utf8(shard) + seq![124u8] + encode_utf8(repo));
    if h.len() == 32 {
        let f = h.take(8);
        assert(f.take(8) =~= f);
        next_byte(f, 0);
        next_byte(f, 1);
        next_byte(f, 2);
        next_byte(f, 3);
        next_byte(f, 4);
        next_byte(f, 5);
        next_byte(f, 6);
        next_byte(f, 7);
        assert(big_endian(f.take(0)) == 0);
    }
}

proof fn next_byte(f: Seq<u8>, i: int)
    requires
        0 <= i < f.len(),
    ensures
        big_endian(f.take(i + 1)) == big_endian(f.take(i)) * 256 + f[i],
{
    assert(f.take(i + 1).drop_last() =~= f.take(i));
}

} // verus!
