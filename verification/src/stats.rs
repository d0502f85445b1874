//! The history of scored decisions, and the leaks that it shows.

use crate::bits::F32;
use crate::order;
use crate::report;
use crate::solution;
use crate::text;
use vstd::prelude::*;

verus! {

/// 0.30 big blinds: what more than this is lost by is a blunder.
pub const BLUNDER_BB: u32 = 0x3e99_999a;

/// 0.05 big blinds: what at least this is lost by is an error.
pub const ERROR_BB: u32 = 0x3d4c_cccd;

/// 0.05: an action played at least this often is a right one.
pub const GTO_ACTION_FREQ: u32 = 0x3d4c_cccd;

/// One scored decision.
#[derive(Debug, Clone)]
pub struct StatRecord {
    pub v: u32,
    /// Seconds since 1970.
    pub ts: u64,
    /// Which drill scored it.
    pub drill: String,
    pub formation: String,
    pub flop: String,
    pub texture: String,
    pub street: String,
    pub hand: String,
    pub bucket: String,
    pub line: Vec<String>,
    pub chosen: String,
    pub best: String,
    /// Big blinds given up, where the drill measures them.
    pub ev_loss: Option<F32>,
    /// How often the chosen action is played.
    pub gto_freq: Option<F32>,
}

impl StatRecord {
    /// A record of a drill at a time; the rest is empty.
    pub fn new(drill: &str, ts: u64) -> (r: Self)
        ensures
            r.v == 1,
            r.ts == ts,
            r.drill@ == drill@,
            r.formation@.len() == 0,
            r.flop@.len() == 0,
            r.texture@.len() == 0,
            r.street@.len() == 0,
            r.hand@.len() == 0,
            r.bucket@.len() == 0,
            r.line@.len() == 0,
            r.chosen@.len() == 0,
            r.best@.len() == 0,
            r.ev_loss is None,
            r.gto_freq is None,
    {
        StatRecord {
            v: 1,
            ts,
            drill: text::copy_text(drill),
            formation: String::new(),
            flop: String::new(),
            texture: String::new(),
            street: String::new(),
            hand: String::new(),
            bucket: String::new(),
            line: Vec::new(),
            chosen: String::new(),
            best: String::new(),
            ev_loss: None,
            gto_freq: None,
        }
    }
}

/// By what records are grouped.
#[derive(Debug, Clone, Copy, PartialEq, Eq, Structural)]
pub enum GroupBy {
    Formation,
    Street,
    Texture,
    Bucket,
}

impl GroupBy {
    /// What a record is grouped under.
    pub open spec fn group(self, r: StatRecord) -> Seq<char> {
        match self {
            GroupBy::Formation => r.formation@,
            GroupBy::Street => r.street@,
            GroupBy::Texture => r.texture@,
            GroupBy::Bucket => r.bucket@,
        }
    }

    /// What a record is grouped under.
    pub fn key(self, r: &StatRecord) -> (k: &str)
        ensures
            k@ == self.group(*r),
    {
        match self {
            GroupBy::Formation => r.formation.as_str(),
            GroupBy::Street => r.street.as_str(),
            GroupBy::Texture => r.texture.as_str(),
            GroupBy::Bucket => r.bucket.as_str(),
        }
    }
}

/// The losses that the first `n` records measured.
pub open spec fn losses(v: Seq<StatRecord>, n: int) -> Seq<F32>
    decreases n,
{
    if n <= 0 {
        Seq::empty()
    } else {
        match v[n - 1].ev_loss {
            Some(x) => losses(v, n - 1).push(x),
            None => losses(v, n - 1),
        }
    }
}

/// How many, of the first `n` records, chose an action that is played often
/// enough.
pub open spec fn accurate_of(v: Seq<StatRecord>, n: int) -> nat
    decreases n,
{
    if n <= 0 {
        0
    } else {
        accurate_of(v, n - 1) + if v[n - 1].gto_freq is Some && (v[n - 1].gto_freq->0).reaches(
            F32 { bits: GTO_ACTION_FREQ },
        ) {
            1nat
        } else {
            0nat
        }
    }
}

/// How many, of the first `n` losses, are blunders.
pub open spec fn blunders_of(v: Seq<F32>, n: int) -> nat
    decreases n,
{
    if n <= 0 {
        0
    } else {
        blunders_of(v, n - 1) + if (F32 { bits: BLUNDER_BB }).below(v[n - 1]) {
            1nat
        } else {
            0nat
        }
    }
}

/// What a group of records comes to: the losses are to be averaged.
#[derive(Debug, Clone)]
pub struct GroupStats {
    pub key: String,
    pub count: usize,
    pub losses: Vec<F32>,
    /// How many chose an action that is played often enough.
    pub accurate: usize,
    pub blunders: usize,
}

/// The name of a group: `"(none)"` for the empty key.
pub open spec fn group_name(key: Seq<char>) -> Seq<char> {
    if key.len() == 0 {
        "(none)"@
    } else {
        key
    }
}

/// The records at these places.
pub open spec fn records_at(v: Seq<StatRecord>, places: Seq<usize>) -> Seq<StatRecord> {
    places.map_values(|i: usize| v[i as int])
}

/// What records come to.
pub open spec fn sums_up(g: GroupStats, key: Seq<char>, v: Seq<StatRecord>) -> bool {
    &&& g.key@ == group_name(key)
    &&& g.count == v.len()
    &&& g.losses@ == losses(v, v.len() as int)
    &&& g.accurate == accurate_of(v, v.len() as int)
    &&& g.blunders == blunders_of(g.losses@, g.losses@.len() as int)
}

/// Sums up the records at these places under a key.
pub fn summarize(key: &str, records: &Vec<StatRecord>, places: &Vec<usize>) -> (r: GroupStats)
    requires
        forall|i: int| 0 <= i < places@.len() ==> #[trigger] places@[i] < records@.len(),
    ensures
        sums_up(r, key@, records_at(records@, places@)),
{
    let ghost v = records_at(records@, places@);
    let mut list: Vec<F32> = Vec::new();
    let mut accurate: usize = 0;
    let mut i: usize = 0;
    while i < places.len()
        invariant
            i <= places@.len(),
            v == records_at(records@, places@),
            forall|k: int| 0 <= k < places@.len() ==> #[trigger] places@[k] < records@.len(),
            list@ == losses(v, i as int),
            list@.len() <= i,
            accurate == accurate_of(v, i as int),
            accurate <= i,
        decreases places@.len() - i,
    {
        let r = &records[places[i]];
        assert(v[i as int] == *r);
        if let Some(x) = r.ev_loss {
            list.push(x);
        }
        if let Some(f) = r.gto_freq {
            if f.ge(F32 { bits: GTO_ACTION_FREQ }) {
                accurate = accurate + 1;
            }
        }
        i = i + 1;
    }
    let mut blunders: usize = 0;
    let mut k: usize = 0;
    while k < list.len()
        invariant
            k <= list@.len(),
            blunders == blunders_of(list@, k as int),
            blunders <= k,
        decreases list@.len() - k,
    {
        if (F32 { bits: BLUNDER_BB }).lt(list[k]) {
            blunders = blunders + 1;
        }
        k = k + 1;
    }
    let cs = text::chars_of(key);
    let name = if cs.len() == 0 {
        "(none)"
    } else {
        key
    };
    GroupStats {
        key: text::copy_text(name),
        count: places.len(),
        losses: list,
        accurate,
        blunders,
    }
}

/// What the records are grouped under.
pub open spec fn group_keys(v: Seq<StatRecord>, by: GroupBy) -> Seq<Seq<char>> {
    v.map_values(|r: StatRecord| by.group(r))
}

/// The groups of records: each key once and in ascending order, with what its
/// records come to, in the order of the records.
pub open spec fn grouped(
    g: Seq<GroupStats>,
    keys: Seq<Seq<char>>,
    v: Seq<StatRecord>,
    by: GroupBy,
) -> bool {
    &&& g.len() == keys.len()
    &&& solution::distinct_of(keys, group_keys(v, by))
    &&& forall|i: int|
        0 <= i < g.len() ==> sums_up(
            #[trigger] g[i],
            keys[i],
            records_at(v, report::places_of(group_keys(v, by), keys[i], v.len() as int)),
        )
}

/// The records that the first `m` groups count.
pub open spec fn counted_in(g: Seq<GroupStats>, m: int) -> int
    decreases m,
{
    if m <= 0 {
        0
    } else {
        counted_in(g, m - 1) + g[m - 1].count
    }
}

/// Every record is counted in one group.
pub proof fn every_record_is_counted(
    g: Seq<GroupStats>,
    keys: Seq<Seq<char>>,
    v: Seq<StatRecord>,
    by: GroupBy,
)
    requires
        grouped(g, keys, v, by),
    ensures
        counted_in(g, g.len() as int) == v.len(),
{
    let gk = group_keys(v, by);
    lemma_counted(g, keys, v, by, g.len() as int);
    report::every_place_is_grouped(keys, gk, v.len() as int);
}

proof fn lemma_counted(
    g: Seq<GroupStats>,
    keys: Seq<Seq<char>>,
    v: Seq<StatRecord>,
    by: GroupBy,
    m: int,
)
    requires
        grouped(g, keys, v, by),
        0 <= m <= g.len(),
    ensures
        counted_in(g, m) == report::places_under(keys, m, group_keys(v, by), v.len() as int),
    decreases m,
{
    if m > 0 {
        lemma_counted(g, keys, v, by, m - 1);
        assert(sums_up(
            g[m - 1],
            keys[m - 1],
            records_at(v, report::places_of(group_keys(v, by), keys[m - 1], v.len() as int)),
        ));
    }
}

/// Groups records by key, the keys in ascending order.
pub fn aggregate(records: &Vec<StatRecord>, by: GroupBy) -> (r: Vec<GroupStats>)
    ensures
        exists|keys: Seq<Seq<char>>| grouped(r@, keys, records@, by),
{
    let ghost kv = group_keys(records@, by);
    let mut keys: Vec<String> = Vec::new();
    let mut i: usize = 0;
    while i < records.len()
        invariant
            i <= records@.len(),
            keys@.len() == i,
            kv == group_keys(records@, by),
            forall|k: int| 0 <= k < i ==> (#[trigger] keys@[k])@ == kv[k],
        decreases records@.len() - i,
    {
        assert(kv[i as int] == by.group(records@[i as int]));
        keys.push(text::copy_text(by.key(&records[i])));
        i = i + 1;
    }
    assert(text::texts(keys@) =~= kv);
    let found = report::rollup(&keys);
    let ghost names = report::group_names(found@);
    let total: usize = records.len();
    let mut out: Vec<GroupStats> = Vec::new();
    let mut g: usize = 0;
    while g < found.len()
        invariant
            g <= found@.len(),
            kv == group_keys(records@, by),
            kv.len() == records@.len(),
            total == kv.len(),
            names == report::group_names(found@),
            keys@.len() == records@.len(),
            text::texts(keys@) == kv,
            forall|k: int|
                0 <= k < found@.len() ==> (#[trigger] found@[k]).rows@ == report::places_of(
                    kv,
                    found@[k].texture@,
                    kv.len() as int,
                ),
            out@.len() == g,
            forall|k: int|
                0 <= k < g ==> sums_up(
                    #[trigger] out@[k],
                    names[k],
                    records_at(records@, report::places_of(kv, names[k], kv.len() as int)),
                ),
        decreases found@.len() - g,
    {
        proof {
            assert(names[g as int] == found@[g as int].texture@);
            report::lemma_places_bound(kv, names[g as int], kv.len() as int);
        }
        let s = summarize(found[g].texture.as_str(), records, &found[g].rows);
        out.push(s);
        g = g + 1;
    }
    assert(grouped(out@, names, records@, by));
    out
}

/// Numbers by falling order.
pub open spec fn falling_keys(v: Seq<F32>) -> Seq<Seq<u32>> {
    v.map_values(|x: F32| seq![(0xffff_ffff - x.total_rank()) as u32])
}

/// The order of groups by average loss: the worst first, equal ones staying as
/// they are.
pub fn worst_first(averages: &Vec<F32>) -> (idx: Vec<usize>)
    ensures
        order::stable_order(falling_keys(averages@), idx@),
{
    let mut keys: Vec<Vec<u32>> = Vec::new();
    let mut i: usize = 0;
    while i < averages.len()
        invariant
            i <= averages@.len(),
            keys@.len() == i,
            forall|k: int| 0 <= k < i ==> (#[trigger] keys@[k])@ == falling_keys(averages@)[k],
        decreases averages@.len() - i,
    {
        let n: u32 = 0xffff_ffff - averages[i].total_key();
        let key = vec![n];
        assert(key@ =~= falling_keys(averages@)[i as int]);
        keys.push(key);
        i = i + 1;
    }
    assert(order::keys_of(keys@) =~= falling_keys(averages@));
    order::sorted_positions(&keys)
}

/// The name of the band that a loss falls into.
pub fn band(ev_loss: F32) -> (r: &'static str)
    ensures
        r == if (F32 { bits: BLUNDER_BB }).below(ev_loss) {
            "blunder"
        } else if ev_loss.reaches(F32 { bits: ERROR_BB }) {
            "error"
        } else {
            "ok"
        },
{
    if (F32 { bits: BLUNDER_BB }).lt(ev_loss) {
        "blunder"
    } else if ev_loss.ge(F32 { bits: ERROR_BB }) {
        "error"
    } else {
        "ok"
    }
}

/// How many losses a trend looks at, at most, on either side.
pub const TREND_WINDOW: usize = 200;

/// How many losses a trend looks at on either side, of `n` in all.
pub open spec fn window_of(n: int) -> int {
    if n / 2 < TREND_WINDOW {
        n / 2
    } else {
        TREND_WINDOW as int
    }
}

/// The last two windows of measured losses, the earlier first; `None` where they
/// hold fewer than 20 each.
pub fn trend(records: &Vec<StatRecord>) -> (r: Option<(Vec<F32>, Vec<F32>)>)
    ensures
        ({
            let all = losses(records@, records@.len() as int);
            let n = all.len() as int;
            let w = window_of(n);
            &&& r is Some == (w >= 20)
            &&& r matches Some((prior, recent)) ==> prior@ == all.subrange(n - 2 * w, n - w)
                && recent@ == all.subrange(n - w, n)
        }),
{
    let mut list: Vec<F32> = Vec::new();
    let mut i: usize = 0;
    while i < records.len()
        invariant
            i <= records@.len(),
            list@ == losses(records@, i as int),
        decreases records@.len() - i,
    {
        if let Some(x) = records[i].ev_loss {
            list.push(x);
        }
        i = i + 1;
    }
    let n: usize = list.len();
    let w: usize = if n / 2 < TREND_WINDOW {
        n / 2
    } else {
        TREND_WINDOW
    };
    if w < 20 {
        return None;
    }
    let prior = slice_of(&list, n - 2 * w, n - w);
    let recent = slice_of(&list, n - w, n);
    Some((prior, recent))
}

fn slice_of(v: &Vec<F32>, from: usize, to: usize) -> (r: Vec<F32>)
    requires
        from <= to <= v@.len(),
    ensures
        r@ == v@.subrange(from as int, to as int),
{
    let mut out: Vec<F32> = Vec::new();
    let mut i: usize = from;
    while i < to
        invariant
            from <= i <= to <= v@.len(),
            out@ == v@.subrange(from as int, i as int),
        decreases to - i,
    {
        out.push(v[i]);
        assert(out@ =~= v@.subrange(from as int, i + 1));
        i = i + 1;
    }
    out
}

/// How many records to leave out to keep the last ones.
pub fn skip_count(len: usize, last: Option<usize>) -> (r: usize)
    ensures
        r == match last {
            Some(n) => if n < len {
                len - n
            } else {
                0
            },
            None => 0,
        },
{
    match last {
        Some(n) => if n < len {
            len - n
        } else {
            0
        },
        None => 0,
    }
}

/// The word for a change of the average loss.
pub fn trend_word(prior: F32, recent: F32) -> (r: &'static str)
    ensures
        r == if recent.below(prior) {
            "improving"
        } else if prior.below(recent) {
            "worsening"
        } else {
            "flat"
        },
{
    if recent.lt(prior) {
        "improving"
    } else if prior.lt(recent) {
        "worsening"
    } else {
        "flat"
    }
}

/// The losses of records are those that were measured, in order.
pub proof fn losses_are_what_was_measured(v: Seq<StatRecord>, n: int)
    requires
        0 <= n <= v.len(),
    ensures
        losses(v, n) == v.take(n).filter(|r: StatRecord| r.ev_loss is Some).map_values(
            |r: StatRecord| r.ev_loss->0,
        ),
    decreases n,
{
    reveal(Seq::filter);
    let has = |r: StatRecord| r.ev_loss is Some;
    let loss = |r: StatRecord| r.ev_loss->0;
    if n > 0 {
        losses_are_what_was_measured(v, n - 1);
        assert(v.take(n).drop_last() =~= v.take(n - 1));
        assert(v.take(n).last() == v[n - 1]);
        let before = v.take(n - 1).filter(has);
        if has(v[n - 1]) {
            assert(before.push(v[n - 1]).map_values(loss) =~= before.map_values(loss).push(
                loss(v[n - 1]),
            ));
        }
    } else {
        assert(v.take(n).filter(has).map_values(loss) =~= Seq::empty());
    }
}

/// A decision is accurate where what was chosen is played at least as often as the
/// threshold says, and every such decision is counted.
pub proof fn accurate_decisions_are_counted(v: Seq<StatRecord>, n: int)
    requires
        0 <= n <= v.len(),
    ensures
        accurate_of(v, n) == v.take(n).filter(
            |r: StatRecord|
                r.gto_freq is Some && (r.gto_freq->0).reaches(F32 { bits: GTO_ACTION_FREQ }),
        ).len(),
    decreases n,
{
    reveal(Seq::filter);
    if n > 0 {
        accurate_decisions_are_counted(v, n - 1);
        assert(v.take(n).drop_last() =~= v.take(n - 1));
        assert(v.take(n).last() == v[n - 1]);
    } else {
        assert(v.take(n) =~= Seq::empty());
    }
}

/// Every loss above the threshold is counted as a blunder.
pub proof fn blunders_are_counted(v: Seq<F32>, n: int)
    requires
        0 <= n <= v.len(),
    ensures
        blunders_of(v, n) == v.take(n).filter(|x: F32| (F32 { bits: BLUNDER_BB }).below(x)).len(),
    decreases n,
{
    reveal(Seq::filter);
    if n > 0 {
        blunders_are_counted(v, n - 1);
        assert(v.take(n).drop_last() =~= v.take(n - 1));
        assert(v.take(n).last() == v[n - 1]);
    } else {
        assert(v.take(n) =~= Seq::empty());
    }
}

/// The two windows of a trend are of one length, stand next to each other and end
/// with the last loss; they hold all losses where there are few enough, but for an
/// odd one at the start.
pub proof fn trends_compare_the_last_losses(n: int)
    requires
        0 <= n,
    ensures
        0 <= 2 * window_of(n) <= n,
        window_of(n) <= TREND_WINDOW,
        n <= 2 * TREND_WINDOW ==> n - 2 * window_of(n) <= 1,
        n >= 2 * TREND_WINDOW ==> window_of(n) == TREND_WINDOW,
{
}

/// A group counts the records under its key: how many there are, how many of them
/// were accurate, and how many lost more than a blunder does.
pub proof fn groups_count_their_records(
    g: Seq<GroupStats>,
    keys: Seq<Seq<char>>,
    v: Seq<StatRecord>,
    by: GroupBy,
    i: int,
)
    requires
        grouped(g, keys, v, by),
        0 <= i < g.len(),
        v.len() <= usize::MAX,
    ensures
        ({
            let mine = v.filter(|r: StatRecord| by.group(r) == keys[i]);
            &&& g[i].count == mine.len()
            &&& g[i].accurate == mine.filter(
                |r: StatRecord|
                    r.gto_freq is Some && (r.gto_freq->0).reaches(F32 { bits: GTO_ACTION_FREQ }),
            ).len()
            &&& g[i].losses@ == mine.filter(|r: StatRecord| r.ev_loss is Some).map_values(
                |r: StatRecord| r.ev_loss->0,
            )
            &&& g[i].blunders == g[i].losses@.filter(
                |x: F32| (F32 { bits: BLUNDER_BB }).below(x),
            ).len()
            &&& keys[i].len() > 0 ==> g[i].key@ == keys[i]
        }),
{
    let mine = v.filter(|r: StatRecord| by.group(r) == keys[i]);
    let n = v.len() as int;
    assert(v.take(n) =~= v);
    lemma_records_at(v, by, keys[i], n);
    let at = records_at(v, report::places_of(group_keys(v, by), keys[i], n));
    assert(at == mine);
    assert(sums_up(g[i], keys[i], at));
    let m = mine.len() as int;
    assert(mine.take(m) =~= mine);
    losses_are_what_was_measured(mine, m);
    accurate_decisions_are_counted(mine, m);
    let l = g[i].losses@;
    blunders_are_counted(l, l.len() as int);
    assert(l.take(l.len() as int) =~= l);
}

proof fn lemma_records_at(v: Seq<StatRecord>, by: GroupBy, key: Seq<char>, n: int)
    requires
        0 <= n <= v.len() <= usize::MAX,
    ensures
        records_at(v, report::places_of(group_keys(v, by), key, n)) == v.take(n).filter(
            |r: StatRecord| by.group(r) == key,
        ),
    decreases n,
{
    reveal(Seq::filter);
    let of = |r: StatRecord| by.group(r) == key;
    let places = report::places_of(group_keys(v, by), key, n);
    if n > 0 {
        lemma_records_at(v, by, key, n - 1);
        let before = report::places_of(group_keys(v, by), key, n - 1);
        assert(v.take(n).drop_last() =~= v.take(n - 1));
        assert(v.take(n).last() == v[n - 1]);
        assert(group_keys(v, by)[n - 1] == by.group(v[n - 1]));
        if of(v[n - 1]) {
            assert(records_at(v, before.push((n - 1) as usize)) =~= records_at(v, before).push(
                v[n - 1],
            ));
        }
    } else {
        assert(records_at(v, places) =~= Seq::empty());
        assert(v.take(n) =~= Seq::empty());
    }
}

/// The worst average comes first.
pub proof fn worse_groups_come_first(averages: Seq<F32>, idx: Seq<usize>, i: int, j: int)
    requires
        order::stable_order(falling_keys(averages), idx),
        0 <= i < j < idx.len(),
    ensures
        !averages[idx[i] as int].below(averages[idx[j] as int]),
{
    reveal_with_fuel(order::lex_le, 2);
    let keys = falling_keys(averages);
    assert(order::comes_before(keys, idx[i] as int, idx[j] as int));
    crate::bits::the_total_order_agrees(averages[idx[i] as int], averages[idx[j] as int]);
    crate::bits::the_total_order_agrees(averages[idx[j] as int], averages[idx[i] as int]);
}

} // verus!
