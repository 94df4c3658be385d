use vstd::prelude::*;
use vstd::multiset::Multiset;
use vstd::string::StringExecFns;
use rand::Rng;

mod app;

pub use app::TemplateApp;

verus! {

broadcast use vstd::seq_lib::group_to_multiset_ensures;

/// One participant in a draft: a sequence number starting at 1 and the picks
/// that the draft assigned to this player.
pub struct Player {
    pub number: usize,
    pub picks: Vec<String>,
}

/// Why a draft could not be run.
#[derive(Clone, Copy, Debug, PartialEq, Eq, Structural)]
pub enum DraftError {
    /// The option pool is too small for the requested number of picks.
    NotEnoughOptions,
}

impl DraftError {
    /// A user-visible description of the error.
    pub fn message(&self) -> (r: String)
        ensures
            r@ == "not enough options for the requested picks"@,
    {
        String::from_str("not enough options for the requested picks")
    }
}

/// The character sequences of a list of strings. The draft's contracts compare
/// picks by their text, never by which allocation they live in.
pub open spec fn texts_of(s: Seq<String>) -> Seq<Seq<char>> {
    s.map_values(|x: String| x@)
}

/// When a draft is possible: drawing without replacement from the whole pool
/// needs `num_players * num_picks` options; drawing per player from a fresh
/// copy of the pool needs only `num_picks` of them.
pub open spec fn can_draft(
    num_players: int,
    num_picks: int,
    n_options: int,
    unique_picks: bool,
) -> bool {
    if unique_picks {
        num_players * num_picks <= n_options
    } else {
        num_players == 0 || num_picks <= n_options
    }
}

#[verifier::external_type_specification]
#[verifier::external_body]
pub struct ExThreadRng(rand::rngs::ThreadRng);

/// Relies on rand::thread_rng: it hands out a handle to the thread-local
/// random number generator. Nothing is stated about the handle.
#[verifier::external_body]
fn fresh_rng() -> rand::rngs::ThreadRng {
    rand::thread_rng()
}

/// Relies on rand::Rng::gen_range on the range `0..n`: it panics only on an
/// empty range, and otherwise returns a uniform sample from the range, which
/// is therefore below `n`. Nothing more is stated: the sample is random.
#[verifier::external_body]
fn rand_below(rng: &mut rand::rngs::ThreadRng, n: usize) -> (r: usize)
    requires
        n > 0,
    ensures
        r < n,
{
    rng.gen_range(0..n)
}

/// Draws `num_players * num_picks` picks from `options` at random. With
/// `unique_picks` every pick removes its option from the pool, so the whole
/// result is drawn without replacement; without it each player draws from a
/// fresh copy of the pool, so only each player's own block of `num_picks`
/// picks (block `q` lies at `q * num_picks .. (q + 1) * num_picks`) is drawn
/// without replacement.
pub fn generate_picks(
    num_players: &usize,
    num_picks: &usize,
    options: Vec<String>,
    unique_picks: bool,
) -> (r: Vec<String>)
    requires
        can_draft(*num_players as int, *num_picks as int, options@.len() as int, unique_picks),
    ensures
        r@.len() == *num_players * *num_picks,
        unique_picks ==> texts_of(r@).to_multiset().subset_of(texts_of(options@).to_multiset()),
        !unique_picks ==> forall|q: int|
            0 <= q < *num_players ==> #[trigger] pick_block(
                r@,
                q,
                *num_picks as int,
            ).to_multiset().subset_of(texts_of(options@).to_multiset()),
{
    let players: usize = *num_players;
    let picks_each: usize = *num_picks;
    let mut opts = options;
    let ghost opts0 = opts@;
    let mut rng = fresh_rng();
    let mut pick_list: Vec<String> = Vec::new();

    if unique_picks {
        // the pool's length bounds the product, so it fits in a usize
        let pool_size: usize = opts.len();
        let total: usize = players * picks_each;
        proof {
            assert(total <= pool_size);
        }
        proof {
            lemma_nothing_drawn(opts0);
        }
        let mut i: usize = 0;
        while i < total
            invariant
                i <= total,
                total <= opts0.len(),
                opts@.len() == opts0.len() - i,
                pick_list@.len() == i,
                texts_of(pick_list@).to_multiset().add(texts_of(opts@).to_multiset()) == texts_of(
                    opts0,
                ).to_multiset(),
            decreases total - i,
        {
            let index = rand_below(&mut rng, opts.len());
            let ghost pool_before = opts@;
            let ghost drawn_before = pick_list@;
            let pick = opts.remove(index);
            pick_list.push(pick);
            proof {
                lemma_draw_step(
                    drawn_before,
                    pick_list@,
                    pool_before,
                    opts@,
                    pick,
                    index as int,
                    opts0,
                );
            }
            i = i + 1;
        }
        proof {
            lemma_part_is_subset(texts_of(pick_list@).to_multiset(), texts_of(opts@).to_multiset(), texts_of(opts0).to_multiset());
        }
        pick_list
    } else {
        let mut p: usize = 0;
        while p < players
            invariant
                p <= players,
                players > 0 ==> picks_each <= opts0.len(),
                opts@ == opts0,
                pick_list@.len() == p * (picks_each as int),
                forall|q: int|
                    0 <= q < p ==> #[trigger] pick_block(
                        pick_list@,
                        q,
                        picks_each as int,
                    ).to_multiset().subset_of(texts_of(opts0).to_multiset()),
            decreases players - p,
        {
            let mut options_clone: Vec<String> = opts.clone();
            proof {
                assert forall|k: int| 0 <= k < opts@.len() implies options_clone@[k]
                    == opts@[k] by {
                    assert(cloned(opts@[k], options_clone@[k]));
                }
                assert(options_clone@ =~= opts@);
            }
            let ghost base = pick_list@;
            proof {
                lemma_nothing_drawn(opts0);
                assert(pick_list@.subrange(base.len() as int, pick_list@.len() as int)
                    =~= Seq::<String>::empty());
                assert(pick_list@.subrange(0, base.len() as int) =~= base);
            }
            let mut j: usize = 0;
            while j < picks_each
                invariant
                    j <= picks_each,
                    picks_each <= opts0.len(),
                    options_clone@.len() == opts0.len() - j,
                    pick_list@.len() == base.len() + j,
                    pick_list@.subrange(0, base.len() as int) == base,
                    texts_of(
                        pick_list@.subrange(base.len() as int, pick_list@.len() as int),
                    ).to_multiset().add(texts_of(options_clone@).to_multiset()) == texts_of(
                        opts0,
                    ).to_multiset(),
                decreases picks_each - j,
            {
                let index = rand_below(&mut rng, options_clone.len());
                let ghost pool_before = options_clone@;
                let ghost block_before = pick_list@.subrange(
                    base.len() as int,
                    pick_list@.len() as int,
                );
                let pick = options_clone.remove(index);
                pick_list.push(pick);
                proof {
                    assert(pick_list@.subrange(0, base.len() as int) =~= base);
                    assert(pick_list@.subrange(base.len() as int, pick_list@.len() as int)
                        =~= block_before.push(pick));
                    lemma_draw_step(
                        block_before,
                        pick_list@.subrange(base.len() as int, pick_list@.len() as int),
                        pool_before,
                        options_clone@,
                        pick,
                        index as int,
                        opts0,
                    );
                }
                j = j + 1;
            }
            proof {
                lemma_player_block_done(pick_list@, base, p as int, picks_each as int, opts0);
            }
            p = p + 1;
        }
        pick_list
    }
}

/// Before anything is drawn, the drawn list is empty, and drawn and pool
/// together hold exactly the texts of the pool.
proof fn lemma_nothing_drawn(pool: Seq<String>)
    ensures
        texts_of(Seq::<String>::empty()).to_multiset().add(texts_of(pool).to_multiset())
            == texts_of(pool).to_multiset(),
{
    let none = texts_of(Seq::<String>::empty());
    assert forall|v: Seq<char>| none.to_multiset().count(v) == 0 by {
        if none.to_multiset().count(v) > 0 {
            assert(none.contains(v));
        }
    }
    assert(none.to_multiset().add(texts_of(pool).to_multiset()) =~= texts_of(pool).to_multiset());
}

/// One step of drawing without replacement: after moving the option at
/// `index` out of the pool and onto the end of the drawn list, drawn and pool
/// together still hold the texts of the original pool.
proof fn lemma_draw_step(
    drawn_before: Seq<String>,
    drawn_after: Seq<String>,
    pool_before: Seq<String>,
    pool_after: Seq<String>,
    pick: String,
    index: int,
    pool0: Seq<String>,
)
    requires
        0 <= index < pool_before.len(),
        pick == pool_before[index],
        pool_after == pool_before.remove(index),
        drawn_after == drawn_before.push(pick),
        texts_of(drawn_before).to_multiset().add(texts_of(pool_before).to_multiset()) == texts_of(
            pool0,
        ).to_multiset(),
    ensures
        texts_of(drawn_after).to_multiset().add(texts_of(pool_after).to_multiset()) == texts_of(
            pool0,
        ).to_multiset(),
{
    lemma_texts_remove(pool_before, index);
    lemma_texts_push(drawn_before, pick);
    assert(texts_of(pool_before)[index] == pick@);
    assert(texts_of(drawn_after).to_multiset() =~= texts_of(drawn_before).to_multiset().insert(
        pick@,
    ));
    assert(texts_of(pool_after).to_multiset() =~= texts_of(pool_before).to_multiset().remove(
        pick@,
    ));
    assert(texts_of(pool_before).to_multiset().count(pick@) > 0) by {
        assert(texts_of(pool_before).contains(pick@));
    }
    assert(texts_of(drawn_after).to_multiset().add(texts_of(pool_after).to_multiset()) =~= texts_of(
        pool0,
    ).to_multiset());
}

/// If two multisets together make up a whole, each is contained in the whole.
proof fn lemma_part_is_subset(
    part: Multiset<Seq<char>>,
    rest: Multiset<Seq<char>>,
    whole: Multiset<Seq<char>>,
)
    requires
        part.add(rest) == whole,
    ensures
        part.subset_of(whole),
{
    assert forall|v: Seq<char>| part.count(v) <= whole.count(v) by {
        assert(whole.count(v) == part.count(v) + rest.count(v));
    }
}

/// After player `p` drew a full block of `picks_each` picks onto the end of
/// the list, every complete block so far is contained in the original pool.
proof fn lemma_player_block_done(
    pick_list: Seq<String>,
    base: Seq<String>,
    p: int,
    picks_each: int,
    pool0: Seq<String>,
)
    requires
        p >= 0,
        picks_each >= 0,
        base.len() == p * picks_each,
        pick_list.len() == base.len() + picks_each,
        pick_list.subrange(0, base.len() as int) == base,
        texts_of(pick_list.subrange(base.len() as int, pick_list.len() as int)).to_multiset().subset_of(
            texts_of(pool0).to_multiset(),
        ),
        forall|q: int|
            0 <= q < p ==> #[trigger] pick_block(base, q, picks_each).to_multiset().subset_of(
                texts_of(pool0).to_multiset(),
            ),
    ensures
        pick_list.len() == (p + 1) * picks_each,
        forall|q: int|
            0 <= q < p + 1 ==> #[trigger] pick_block(pick_list, q, picks_each).to_multiset().subset_of(
                texts_of(pool0).to_multiset(),
            ),
{
    assert(pick_list.len() == (p + 1) * picks_each) by (nonlinear_arith)
        requires
            base.len() == p * picks_each,
            pick_list.len() == base.len() + picks_each,
    ;
    assert forall|q: int| 0 <= q < p + 1 implies #[trigger] pick_block(
        pick_list,
        q,
        picks_each,
    ).to_multiset().subset_of(texts_of(pool0).to_multiset()) by {
        lemma_block_in_range(q, p + 1, picks_each);
        if q < p {
            lemma_block_in_range(q, p, picks_each);
            assert(pick_block(pick_list, q, picks_each) =~= pick_block(base, q, picks_each)) by {
                assert forall|k: int|
                    q * picks_each <= k < (q + 1) * picks_each implies texts_of(pick_list)[k]
                    == texts_of(base)[k] by {
                    assert(pick_list[k] == pick_list.subrange(0, base.len() as int)[k]);
                }
            }
        } else {
            assert(pick_block(pick_list, q, picks_each) =~= texts_of(
                pick_list.subrange(base.len() as int, pick_list.len() as int),
            )) by {
                lemma_texts_subrange(pick_list, base.len() as int, pick_list.len() as int);
            }
        }
    }
}

/// Splits a flat pick list into players: player `i` (numbered `i + 1`) gets
/// the picks at positions `i * num_picks .. (i + 1) * num_picks`.
pub fn generate_players(num_players: &usize, num_picks: &usize, pick_list: Vec<String>) -> (r: Vec<
    Player,
>)
    requires
        *num_players * *num_picks <= pick_list@.len(),
    ensures
        r@.len() == *num_players,
        forall|q: int| 0 <= q < r@.len() ==> (#[trigger] r@[q]).number == q + 1,
        forall|q: int|
            0 <= q < r@.len() ==> (#[trigger] r@[q]).picks@ == pick_list@.subrange(
                q * (*num_picks as int),
                (q + 1) * (*num_picks as int),
            ),
{
    let players: usize = *num_players;
    let picks_each: usize = *num_picks;
    let total: usize = pick_list.len();
    let mut player_list: Vec<Player> = Vec::new();
    let mut i: usize = 0;
    while i < players
        invariant
            i <= players,
            players * picks_each <= pick_list@.len(),
            total == pick_list@.len(),
            player_list@.len() == i,
            forall|q: int| 0 <= q < i ==> (#[trigger] player_list@[q]).number == q + 1,
            forall|q: int|
                0 <= q < i ==> (#[trigger] player_list@[q]).picks@ == pick_list@.subrange(
                    q * (picks_each as int),
                    (q + 1) * (picks_each as int),
                ),
        decreases players - i,
    {
        proof {
            lemma_block_in_range(i as int, players as int, picks_each as int);
        }
        let start: usize = i * picks_each;
        let mut picks: Vec<String> = Vec::new();
        let mut j: usize = 0;
        while j < picks_each
            invariant
                j <= picks_each,
                i < players,
                players * picks_each <= pick_list@.len(),
                total == pick_list@.len(),
                start == i * picks_each,
                start + picks_each <= total,
                picks@ == pick_list@.subrange(start as int, start + j),
            decreases picks_each - j,
        {
            let pick: String = pick_list[start + j].clone();
            picks.push(pick);
            proof {
                assert(pick_list@.subrange(start as int, start + j + 1) =~= pick_list@.subrange(
                    start as int,
                    start + j,
                ).push(pick_list@[start + j]));
            }
            j = j + 1;
        }
        let player = Player { number: i + 1, picks };
        player_list.push(player);
        i = i + 1;
    }
    player_list
}

/// Player `i`'s block of picks lies inside a flat list of
/// `players * picks_each` entries.
proof fn lemma_block_in_range(i: int, players: int, picks_each: int)
    requires
        0 <= i < players,
        0 <= picks_each,
    ensures
        i * picks_each + picks_each <= players * picks_each,
        (i + 1) * picks_each == i * picks_each + picks_each,
{
    assert(i * picks_each + picks_each <= players * picks_each && (i + 1) * picks_each == i
        * picks_each + picks_each) by (nonlinear_arith)
        requires
            0 <= i < players,
            0 <= picks_each,
    ;
}

/// Player `q`'s share of a flat list of picks, as texts: the entries at
/// positions `q * num_picks .. (q + 1) * num_picks`.
pub open spec fn pick_block(pick_list: Seq<String>, q: int, num_picks: int) -> Seq<Seq<char>> {
    texts_of(pick_list).subrange(q * num_picks, (q + 1) * num_picks)
}

/// The picks of a whole draft, flattened: player 1's picks, then player 2's,
/// and so on.
pub open spec fn all_picks(pl: Seq<Player>) -> Seq<String>
    decreases pl.len(),
{
    if pl.len() == 0 {
        Seq::<String>::empty()
    } else {
        all_picks(pl.drop_last()) + pl.last().picks@
    }
}

/// The player list has the requested shape: `num_players` players, numbered
/// from 1 in order, each holding exactly `num_picks` picks.
pub open spec fn player_counts_ok(pl: Seq<Player>, num_players: int, num_picks: int) -> bool {
    &&& pl.len() == num_players
    &&& forall|q: int| 0 <= q < pl.len() ==> (#[trigger] pl[q]).number == q + 1
    &&& forall|q: int| 0 <= q < pl.len() ==> (#[trigger] pl[q]).picks@.len() == num_picks
}

/// Every pick of every player reads as one of the option texts.
pub open spec fn picks_from_options(pl: Seq<Player>, options: Seq<String>) -> bool {
    forall|q: int, k: int|
        0 <= q < pl.len() && 0 <= k < pl[q].picks@.len() ==> texts_of(options).contains(
            #[trigger] pl[q].picks@[k]@,
        )
}

/// Each player's picks were drawn from the pool without replacement: no text
/// is picked by one player more often than the pool offers it.
pub open spec fn players_draw_from_pool(pl: Seq<Player>, options: Seq<String>) -> bool {
    forall|q: int|
        0 <= q < pl.len() ==> texts_of((#[trigger] pl[q]).picks@).to_multiset().subset_of(
            texts_of(options).to_multiset(),
        )
}

/// Within each player, no text is picked twice.
pub open spec fn player_picks_distinct(pl: Seq<Player>) -> bool {
    forall|q: int| 0 <= q < pl.len() ==> texts_of((#[trigger] pl[q]).picks@).no_duplicates()
}

/// Across the whole draft, no text is picked twice, neither by one player nor
/// by two.
pub open spec fn draft_distinct(pl: Seq<Player>) -> bool {
    forall|q: int, k: int, q2: int, k2: int|
        0 <= q < pl.len() && 0 <= k < pl[q].picks@.len() && 0 <= q2 < pl.len() && 0 <= k2
            < pl[q2].picks@.len() && (q != q2 || k != k2) ==> #[trigger] pl[q].picks@[k]@
            != #[trigger] pl[q2].picks@[k2]@
}

/// Runs one draft on an option pool that has already been read: checks that
/// the pool is large enough, draws the picks at random, and splits them into
/// players. Fails exactly when the pool is too small for the request.
pub fn run_drafter(
    options: Vec<String>,
    num_players: usize,
    num_picks: usize,
    unique_picks: bool,
) -> (r: Result<Vec<Player>, DraftError>)
    ensures
        r is Ok <==> can_draft(
            num_players as int,
            num_picks as int,
            options@.len() as int,
            unique_picks,
        ),
        r is Err ==> r->Err_0 == DraftError::NotEnoughOptions,
        r matches Ok(pl) ==> {
            &&& player_counts_ok(pl@, num_players as int, num_picks as int)
            &&& picks_from_options(pl@, options@)
            &&& players_draw_from_pool(pl@, options@)
            &&& (unique_picks ==> texts_of(all_picks(pl@)).to_multiset().subset_of(
                texts_of(options@).to_multiset(),
            ))
            &&& (texts_of(options@).no_duplicates() ==> player_picks_distinct(pl@))
            &&& (unique_picks && texts_of(options@).no_duplicates() ==> draft_distinct(pl@))
        },
{
    let n: usize = options.len();
    if unique_picks {
        let enough: bool = match num_players.checked_mul(num_picks) {
            Some(total) => total <= n,
            None => false,
        };
        if !enough {
            return Err(DraftError::NotEnoughOptions);
        }
    } else {
        if num_players > 0 && num_picks > n {
            return Err(DraftError::NotEnoughOptions);
        }
    }
    let pick_list: Vec<String> = generate_picks(&num_players, &num_picks, options, unique_picks);
    let ghost flat = pick_list@;
    let player_list: Vec<Player> = generate_players(&num_players, &num_picks, pick_list);
    proof {
        lemma_assemble(
            player_list@,
            flat,
            options@,
            num_players as int,
            num_picks as int,
            unique_picks,
        );
    }
    Ok(player_list)
}

/// From the flat pick list and how it was drawn, everything the draft
/// promises at the player level follows.
proof fn lemma_assemble(
    pl: Seq<Player>,
    pick_list: Seq<String>,
    options: Seq<String>,
    num_players: int,
    num_picks: int,
    unique_picks: bool,
)
    requires
        num_players >= 0,
        num_picks >= 0,
        pl.len() == num_players,
        pick_list.len() == num_players * num_picks,
        forall|q: int|
            0 <= q < pl.len() ==> (#[trigger] pl[q]).picks@ == pick_list.subrange(
                q * num_picks,
                (q + 1) * num_picks,
            ),
        unique_picks ==> texts_of(pick_list).to_multiset().subset_of(
            texts_of(options).to_multiset(),
        ),
        !unique_picks ==> forall|q: int|
            0 <= q < num_players ==> #[trigger] pick_block(
                pick_list,
                q,
                num_picks,
            ).to_multiset().subset_of(texts_of(options).to_multiset()),
    ensures
        forall|q: int| 0 <= q < pl.len() ==> (#[trigger] pl[q]).picks@.len() == num_picks,
        picks_from_options(pl, options),
        players_draw_from_pool(pl, options),
        unique_picks ==> texts_of(all_picks(pl)).to_multiset().subset_of(
            texts_of(options).to_multiset(),
        ),
        texts_of(options).no_duplicates() ==> player_picks_distinct(pl),
        unique_picks && texts_of(options).no_duplicates() ==> draft_distinct(pl),
{
    assert forall|q: int| 0 <= q < pl.len() implies texts_of((#[trigger] pl[q]).picks@)
        == pick_block(pick_list, q, num_picks) && pl[q].picks@.len() == num_picks by {
        lemma_block_in_range(q, num_players, num_picks);
        lemma_texts_subrange(pick_list, q * num_picks, (q + 1) * num_picks);
    }
    assert forall|q: int| 0 <= q < pl.len() implies texts_of(
        (#[trigger] pl[q]).picks@,
    ).to_multiset().subset_of(texts_of(options).to_multiset()) by {
        if unique_picks {
            lemma_block_in_range(q, num_players, num_picks);
            lemma_subrange_multiset_subset(
                texts_of(pick_list),
                q * num_picks,
                (q + 1) * num_picks,
            );
            assert forall|v: Seq<char>|
                texts_of(pl[q].picks@).to_multiset().count(v) <= texts_of(
                    options,
                ).to_multiset().count(v) by {
                assert(texts_of(pl[q].picks@).to_multiset().count(v) <= texts_of(
                    pick_list,
                ).to_multiset().count(v));
            }
        }
    }
    assert forall|q: int, k: int|
        0 <= q < pl.len() && 0 <= k < pl[q].picks@.len() implies texts_of(options).contains(
        #[trigger] pl[q].picks@[k]@,
    ) by {
        let block = texts_of(pl[q].picks@);
        assert(block[k] == pl[q].picks@[k]@);
        assert(block.contains(block[k]));
        assert(block.to_multiset().count(block[k]) > 0);
        assert(texts_of(options).to_multiset().count(block[k]) > 0);
    }
    if texts_of(options).no_duplicates() {
        assert forall|q: int| 0 <= q < pl.len() implies texts_of(
            (#[trigger] pl[q]).picks@,
        ).no_duplicates() by {
            lemma_drawn_texts_distinct(texts_of(pl[q].picks@), texts_of(options));
        }
    }
    if unique_picks {
        lemma_all_picks_flat(pl, pick_list, num_players, num_picks);
        if texts_of(options).no_duplicates() {
            lemma_drawn_texts_distinct(texts_of(pick_list), texts_of(options));
            assert forall|q: int, k: int, q2: int, k2: int|
                0 <= q < pl.len() && 0 <= k < pl[q].picks@.len() && 0 <= q2 < pl.len() && 0 <= k2
                    < pl[q2].picks@.len() && (q != q2 || k != k2) implies #[trigger] pl[q].picks@[k]@
                != #[trigger] pl[q2].picks@[k2]@ by {
                lemma_block_in_range(q, num_players, num_picks);
                lemma_block_in_range(q2, num_players, num_picks);
                lemma_flat_index_injective(q, k, q2, k2, num_picks);
                assert(pl[q].picks@[k] == pick_list[q * num_picks + k]);
                assert(pl[q2].picks@[k2] == pick_list[q2 * num_picks + k2]);
                assert(texts_of(pick_list)[q * num_picks + k] == pl[q].picks@[k]@);
                assert(texts_of(pick_list)[q2 * num_picks + k2] == pl[q2].picks@[k2]@);
            }
        }
    }
}

/// A slice of a sequence holds no text more often than the whole sequence.
proof fn lemma_subrange_multiset_subset(s: Seq<Seq<char>>, a: int, b: int)
    requires
        0 <= a <= b <= s.len(),
    ensures
        s.subrange(a, b).to_multiset().subset_of(s.to_multiset()),
{
    let front = s.subrange(0, a);
    let mid = s.subrange(a, b);
    let back = s.subrange(b, s.len() as int);
    assert(s =~= (front + mid) + back);
    vstd::seq_lib::lemma_multiset_commutative(front + mid, back);
    vstd::seq_lib::lemma_multiset_commutative(front, mid);
    assert forall|v: Seq<char>| mid.to_multiset().count(v) <= s.to_multiset().count(v) by {
        assert(s.to_multiset().count(v) == front.to_multiset().count(v) + mid.to_multiset().count(
            v,
        ) + back.to_multiset().count(v));
    }
}

/// What was drawn without replacement from a pool of pairwise distinct texts
/// is itself pairwise distinct.
proof fn lemma_drawn_texts_distinct(drawn: Seq<Seq<char>>, pool: Seq<Seq<char>>)
    requires
        drawn.to_multiset().subset_of(pool.to_multiset()),
        pool.no_duplicates(),
    ensures
        drawn.no_duplicates(),
{
    pool.lemma_multiset_has_no_duplicates();
    assert forall|x: Seq<char>| drawn.to_multiset().contains(x) implies drawn.to_multiset().count(
        x,
    ) == 1 by {
        assert(drawn.to_multiset().count(x) <= pool.to_multiset().count(x));
        assert(pool.to_multiset().count(x) > 0);
    }
    drawn.lemma_multiset_has_no_duplicates_conv();
}

/// Two distinct (player, pick) positions land on distinct positions of the
/// flat pick list.
proof fn lemma_flat_index_injective(q: int, k: int, q2: int, k2: int, num_picks: int)
    requires
        0 <= k < num_picks,
        0 <= k2 < num_picks,
        q >= 0,
        q2 >= 0,
        q != q2 || k != k2,
    ensures
        q * num_picks + k != q2 * num_picks + k2,
{
    if q < q2 {
        assert(q * num_picks + k < q2 * num_picks + k2) by (nonlinear_arith)
            requires
                0 <= k < num_picks,
                0 <= k2,
                0 <= q < q2,
        ;
    } else if q2 < q {
        assert(q2 * num_picks + k2 < q * num_picks + k) by (nonlinear_arith)
            requires
                0 <= k2 < num_picks,
                0 <= k,
                0 <= q2 < q,
        ;
    }
}

/// The players' picks, concatenated in player order, are exactly the flat
/// pick list they were cut from.
proof fn lemma_all_picks_flat(
    pl: Seq<Player>,
    pick_list: Seq<String>,
    num_players: int,
    num_picks: int,
)
    requires
        num_picks >= 0,
        pl.len() == num_players,
        pick_list.len() == num_players * num_picks,
        forall|q: int|
            0 <= q < pl.len() ==> (#[trigger] pl[q]).picks@ == pick_list.subrange(
                q * num_picks,
                (q + 1) * num_picks,
            ),
    ensures
        all_picks(pl) == pick_list,
    decreases pl.len(),
{
    if pl.len() == 0 {
        assert(all_picks(pl) =~= pick_list);
    } else {
        let m = pl.len() - 1;
        lemma_block_in_range(m as int, num_players, num_picks);
        let front = pick_list.subrange(0, m as int * num_picks);
        assert forall|q: int|
            0 <= q < pl.drop_last().len() implies (#[trigger] pl.drop_last()[q]).picks@
            == front.subrange(q * num_picks, (q + 1) * num_picks) by {
            lemma_block_in_range(q, m as int, num_picks);
            assert(front.subrange(q * num_picks, (q + 1) * num_picks) =~= pick_list.subrange(
                q * num_picks,
                (q + 1) * num_picks,
            ));
        }
        assert(m as int * num_picks == (num_players - 1) * num_picks);
        lemma_all_picks_flat(pl.drop_last(), front, num_players - 1, num_picks);
        assert(pl.last().picks@ == pick_list.subrange(m as int * num_picks, (m as int + 1)
            * num_picks));
        assert(all_picks(pl) == front + pl.last().picks@);
        assert(front + pl.last().picks@ =~= pick_list);
    }
}

proof fn lemma_texts_remove(s: Seq<String>, i: int)
    requires
        0 <= i < s.len(),
    ensures
        texts_of(s.remove(i)) == texts_of(s).remove(i),
{
    assert(texts_of(s.remove(i)) =~= texts_of(s).remove(i));
}

proof fn lemma_texts_push(s: Seq<String>, x: String)
    ensures
        texts_of(s.push(x)) == texts_of(s).push(x@),
{
    assert(texts_of(s.push(x)) =~= texts_of(s).push(x@));
}

proof fn lemma_texts_subrange(s: Seq<String>, a: int, b: int)
    requires
        0 <= a <= b <= s.len(),
    ensures
        texts_of(s.subrange(a, b)) == texts_of(s).subrange(a, b),
{
    assert(texts_of(s.subrange(a, b)) =~= texts_of(s).subrange(a, b));
}

} // verus!
