//! Texture of a flop, and the bet sizes it calls for.

use crate::board;
use crate::board::Card;
use crate::iso;
use crate::solution::SpotConfig;
use crate::text;
use vstd::prelude::*;

verus! {

/// The four textures. Pairing wins over the suits.
#[derive(Debug, Clone, Copy, PartialEq, Eq, Structural)]
pub enum Texture {
    Paired,
    Monotone,
    TwoTone,
    Rainbow,
}

impl Texture {
    /// The name of the texture.
    pub open spec fn name(self) -> Seq<char> {
        match self {
            Texture::Paired => "paired"@,
            Texture::Monotone => "monotone"@,
            Texture::TwoTone => "two-tone"@,
            Texture::Rainbow => "rainbow"@,
        }
    }
}

/// The texture of three cards.
pub open spec fn texture_of(f: [Card; 3]) -> Texture {
    if f[0].rank == f[1].rank || f[1].rank == f[2].rank || f[0].rank == f[2].rank {
        Texture::Paired
    } else if f[0].suit == f[1].suit && f[1].suit == f[2].suit {
        Texture::Monotone
    } else if f[0].suit == f[1].suit || f[1].suit == f[2].suit || f[0].suit == f[2].suit {
        Texture::TwoTone
    } else {
        Texture::Rainbow
    }
}

/// The name of the texture of a flop.
pub fn class(flop: [Card; 3]) -> (r: &'static str)
    ensures
        r@ == texture_of(flop).name(),
        set![flop[0].rank, flop[1].rank, flop[2].rank].len() < 3 ==> r@ == "paired"@,
        set![flop[0].rank, flop[1].rank, flop[2].rank].len() == 3 ==> {
            &&& set![flop[0].suit, flop[1].suit, flop[2].suit].len() == 1 ==> r@ == "monotone"@
            &&& set![flop[0].suit, flop[1].suit, flop[2].suit].len() == 2 ==> r@ == "two-tone"@
            &&& set![flop[0].suit, flop[1].suit, flop[2].suit].len() == 3 ==> r@ == "rainbow"@
        },
{
    proof {
        textures_count_ranks_and_suits(flop);
    }
    if flop[0].rank == flop[1].rank || flop[1].rank == flop[2].rank || flop[0].rank
        == flop[2].rank {
        return "paired";
    }
    if flop[0].suit == flop[1].suit && flop[1].suit == flop[2].suit {
        "monotone"
    } else if flop[0].suit == flop[1].suit || flop[1].suit == flop[2].suit || flop[0].suit
        == flop[2].suit {
        "two-tone"
    } else {
        "rainbow"
    }
}

/// The class that bet sizes are keyed by.
pub fn sizing_class(flop: [Card; 3]) -> (r: &'static str)
    ensures
        r@ == texture_of(flop).name(),
{
    class(flop)
}

proof fn lemma_three(a: u8, b: u8, c: u8)
    ensures
        set![a, b, c].finite(),
        set![a, b, c].len() == if a == b && b == c {
            1nat
        } else if a == b || b == c || a == c {
            2
        } else {
            3
        },
{
    let one = set![a];
    let two = set![a, b];
    assert(one.len() == 1);
    if b == a {
        assert(two =~= one);
    } else {
        assert(two.len() == 2);
    }
    if c == a || c == b {
        assert(set![a, b, c] =~= two);
    }
}

/// A flop is paired where it has fewer than three ranks. Any other is monotone
/// with one suit, two-tone with two and rainbow with three.
pub proof fn textures_count_ranks_and_suits(f: [Card; 3])
    ensures
        texture_of(f) == Texture::Paired <==> set![f[0].rank, f[1].rank, f[2].rank].len() < 3,
        set![f[0].rank, f[1].rank, f[2].rank].len() == 3 ==> {
            &&& texture_of(f) == Texture::Monotone <==> set![f[0].suit, f[1].suit, f[2].suit].len()
                == 1
            &&& texture_of(f) == Texture::TwoTone <==> set![f[0].suit, f[1].suit, f[2].suit].len()
                == 2
            &&& texture_of(f) == Texture::Rainbow <==> set![f[0].suit, f[1].suit, f[2].suit].len()
                == 3
        },
{
    lemma_three(f[0].rank, f[1].rank, f[2].rank);
    lemma_three(f[0].suit, f[1].suit, f[2].suit);
}

/// The texture of a flop does not depend on the order of its cards.
pub proof fn texture_ignores_card_order(f: [Card; 3], g: [Card; 3], i: int, j: int, k: int)
    requires
        0 <= i < 3,
        0 <= j < 3,
        0 <= k < 3,
        i != j,
        j != k,
        i != k,
        g[0] == f[i],
        g[1] == f[j],
        g[2] == f[k],
    ensures
        texture_of(g) == texture_of(f),
{
    assert(g@[0] == f@[i] && g@[1] == f@[j] && g@[2] == f@[k]);
}

/// The same card with its suit relabeled.
pub open spec fn relabeled_card(c: Card, p: iso::SuitPerm) -> Card {
    Card { rank: c.rank, suit: p.image(c.suit as int) as u8 }
}

/// Relabeling the suits of a flop does not change its texture, so a table that
/// is stored under the canonical flop is found from every flop it stands for.
pub proof fn texture_ignores_suit_names(f: [Card; 3], g: [Card; 3], p: iso::SuitPerm)
    requires
        board::all_cards(f@),
        p.wf(),
        forall|i: int| 0 <= i < 3 ==> #[trigger] g[i] == relabeled_card(f[i], p),
    ensures
        texture_of(g) == texture_of(f),
{
    assert(f@[0].wf() && f@[1].wf() && f@[2].wf());
    let (a, b, c) = (f[0].suit as int, f[1].suit as int, f[2].suit as int);
    assert(p.0[a] < 4 && p.0[b] < 4 && p.0[c] < 4);
    lemma_images_differ(p, a, b);
    lemma_images_differ(p, b, c);
    lemma_images_differ(p, a, c);
    assert(g[0] == relabeled_card(f[0], p));
    assert(g[1] == relabeled_card(f[1], p));
    assert(g[2] == relabeled_card(f[2], p));
}

proof fn lemma_images_differ(p: iso::SuitPerm, s: int, t: int)
    requires
        p.wf(),
        0 <= s < 4,
        0 <= t < 4,
    ensures
        p.image(s) == p.image(t) <==> s == t,
{
    if s < t {
        assert(p.0[s] != p.0[t]);
    } else if t < s {
        assert(p.0[t] != p.0[s]);
    }
}

/// The bet sizes on the flop for a sizing class: rainbow flops get one size.
pub fn flop_sizes_for(_formation: &str, sizing_class: &str) -> (r: &'static str)
    ensures
        sizing_class@ == "rainbow"@ ==> r@ == "75%"@,
        sizing_class@ != "rainbow"@ ==> r@ == "33%, 75%"@,
{
    if text::same_text(sizing_class, "rainbow") {
        "75%"
    } else {
        "33%, 75%"
    }
}

/// The three cards of a flop written in six characters.
pub open spec fn six_char_flop(s: Seq<char>) -> Option<[Card; 3]> {
    let (a, b, c) = (
        board::leading_card(s.subrange(0, 2)),
        board::leading_card(s.subrange(2, 4)),
        board::leading_card(s.subrange(4, 6)),
    );
    if s.len() == 6 && a is Some && b is Some && c is Some {
        Some([a->0, b->0, c->0])
    } else {
        None
    }
}

/// Reads a flop such as `"Td9d6h"`.
pub fn parse_flop(s: &str) -> (r: Option<[Card; 3]>)
    ensures
        r == six_char_flop(s@),
        r matches Some(f) ==> board::all_cards(f@),
{
    let cs = text::chars_of(s);
    if cs.len() != 6 {
        return None;
    }
    let x = text::part(cs.as_slice(), 0, 2);
    let y = text::part(cs.as_slice(), 2, 4);
    let z = text::part(cs.as_slice(), 4, 6);
    let xs = text::string_of(x.as_slice());
    let ys = text::string_of(y.as_slice());
    let zs = text::string_of(z.as_slice());
    match (
        board::parse_card(xs.as_str()),
        board::parse_card(ys.as_str()),
        board::parse_card(zs.as_str()),
    ) {
        (Some(a), Some(b), Some(c)) => {
            let f: [Card; 3] = [a, b, c];
            assert(f@[0].wf() && f@[1].wf() && f@[2].wf());
            Some(f)
        },
        _ => None,
    }
}

/// The flop sizes of a configuration for one flop: those of the flop's texture,
/// but only where the formation is a ruleset and a line (`<ruleset>:<line>`),
/// the sizes are the default ones and the flop can be read.
pub open spec fn specialized_sizes(
    formation: Seq<char>,
    sizes: Seq<char>,
    flop: Seq<char>,
) -> Seq<char> {
    if formation.contains(':') && sizes == "33%, 75%"@ && six_char_flop(flop) is Some {
        if texture_of(six_char_flop(flop)->0) == Texture::Rainbow {
            "75%"@
        } else {
            "33%, 75%"@
        }
    } else {
        sizes
    }
}

/// Sets the flop sizes that the flop's texture calls for.
pub fn specialize(config: &mut SpotConfig, flop: &str)
    ensures
        final(config).flop_sizes@ == specialized_sizes(
            old(config).formation@,
            old(config).flop_sizes@,
            flop@,
        ),
        final(config).formation == old(config).formation,
        final(config).oop_range == old(config).oop_range,
        final(config).ip_range == old(config).ip_range,
        final(config).turn_sizes == old(config).turn_sizes,
        final(config).river_sizes == old(config).river_sizes,
        final(config).stack_bb == old(config).stack_bb,
        final(config).pot_bb == old(config).pot_bb,
        final(config).rake_rate == old(config).rake_rate,
        final(config).rake_cap_bb == old(config).rake_cap_bb,
{
    if !text::has_char(config.formation.as_str(), ':') {
        return;
    }
    if !text::same_text(config.flop_sizes.as_str(), "33%, 75%") {
        return;
    }
    if let Some(cards) = parse_flop(flop) {
        proof {
            lemma_names_differ();
        }
        let sizes = flop_sizes_for(config.formation.as_str(), sizing_class(cards));
        config.flop_sizes = text::copy_text(sizes);
    }
}

proof fn lemma_names_differ()
    ensures
        "paired"@ != "rainbow"@,
        "monotone"@ != "rainbow"@,
        "two-tone"@ != "rainbow"@,
{
    reveal_strlit("paired");
    reveal_strlit("monotone");
    reveal_strlit("two-tone");
    reveal_strlit("rainbow");
    assert("paired"@[0] == 'p' && "rainbow"@[0] == 'r' && "monotone"@[0] == 'm' && "two-tone"@[0]
        == 't');
}

/// Two flops of the same texture get the same sizes under one configuration.
pub proof fn sizes_follow_texture(formation: Seq<char>, sizes: Seq<char>, a: Seq<char>, b: Seq<char>)
    requires
        six_char_flop(a) is Some,
        six_char_flop(b) is Some,
        texture_of(six_char_flop(a)->0) == texture_of(six_char_flop(b)->0),
    ensures
        specialized_sizes(formation, sizes, a) == specialized_sizes(formation, sizes, b),
{
}

/// A flop that was written in six characters is read back.
pub proof fn flops_read_back(f: [Card; 3])
    requires
        board::all_cards(f@),
    ensures
        six_char_flop(
            iso::card_text(f[0].index()) + iso::card_text(f[1].index()) + iso::card_text(
                f[2].index(),
            ),
        ) matches Some(g) && g@ == f@,
{
    assert(f@[0].wf() && f@[1].wf() && f@[2].wf());
    let (a, b, c) = (
        iso::card_text(f[0].index()),
        iso::card_text(f[1].index()),
        iso::card_text(f[2].index()),
    );
    let s = a + b + c;
    assert(s.subrange(0, 2) =~= a + Seq::empty());
    assert(s.subrange(2, 4) =~= b + Seq::empty());
    assert(s.subrange(4, 6) =~= c + Seq::empty());
    board::cards_read_back(f[0], Seq::empty());
    board::cards_read_back(f[1], Seq::empty());
    board::cards_read_back(f[2], Seq::empty());
    let g = six_char_flop(s)->0;
    assert(g@ =~= f@);
}

/// Only the default sizes of a ruleset's spot change, and only on a flop of three
/// ranks and three suits: there one size is left.
pub proof fn rainbow_flops_get_one_size(formation: Seq<char>, sizes: Seq<char>, flop: Seq<char>)
    ensures
        ({
            let f = six_char_flop(flop)->0;
            let rainbow = six_char_flop(flop) is Some && set![f[0].rank, f[1].rank, f[2].rank].len()
                == 3 && set![f[0].suit, f[1].suit, f[2].suit].len() == 3;
            if formation.contains(':') && sizes == "33%, 75%"@ && rainbow {
                specialized_sizes(formation, sizes, flop) == "75%"@
            } else {
                specialized_sizes(formation, sizes, flop) == sizes
            }
        }),
{
    if six_char_flop(flop) is Some {
        textures_count_ranks_and_suits(six_char_flop(flop)->0);
        let f = six_char_flop(flop)->0;
        lemma_three(f[0].rank, f[1].rank, f[2].rank);
    }
}

} // verus!
