//! Tables of stored nodes, addressed by their action lines.

use crate::bits::F32;
use crate::solution::{GenInfo, SpotConfig};
use crate::text;
use crate::textmap::TextMap;
use crate::tree::TreeNode;
use vstd::prelude::*;

verus! {

/// The newest table format that is understood.
pub const FORMAT_VERSION: u32 = 1;

/// A text with every `:` replaced by `_`.
pub open spec fn colons_replaced(s: Seq<char>) -> Seq<char> {
    s.map_values(
        |c: char|
            if c == ':' {
                '_'
            } else {
                c
            },
    )
}

/// The directory name of a formation: its id, with `_` for the `:` that file
/// names cannot hold.
pub fn formation_dir(formation: &str) -> (r: String)
    ensures
        r@ == colons_replaced(formation@),
{
    let cs = text::chars_of(formation);
    let mut out = String::new();
    let mut i: usize = 0;
    while i < cs.len()
        invariant
            i <= cs@.len(),
            cs@ == formation@,
            out@ == colons_replaced(formation@.take(i as int)),
        decreases cs@.len() - i,
    {
        let c = if cs[i] == ':' {
            '_'
        } else {
            cs[i]
        };
        out.push(c);
        i = i + 1;
        assert(colons_replaced(formation@.take(i as int)) =~= colons_replaced(
            formation@.take(i - 1),
        ).push(c));
    }
    assert(formation@.take(i as int) =~= formation@);
    out
}

/// A formation without `:` is its own directory.
pub proof fn plain_formation_keeps_its_name(s: Seq<char>)
    requires
        !s.contains(':'),
    ensures
        colons_replaced(s) == s,
{
    assert(colons_replaced(s) =~= s) by {
        assert forall|i: int| 0 <= i < s.len() implies colons_replaced(s)[i] == s[i] by {
            assert(s.contains(s[i]));
        }
    }
}

/// One stored node and how often it is reached.
#[derive(Debug, Clone)]
pub struct TableNode {
    pub reach: F32,
    pub node: TreeNode,
}

/// What the tables of one configuration have in common.
#[derive(Debug, Clone)]
pub struct TableHeader {
    pub version: u32,
    pub formation: String,
    pub config: SpotConfig,
    pub config_hash: String,
    pub generator: GenInfo,
    /// Nodes reached less often than this are not stored.
    pub reach: F32,
}

/// The key of an action line: its labels with a unit separator between them.
pub open spec fn line_key(line: Seq<Seq<char>>) -> Seq<char> {
    text::joined(line, "\u{1f}"@)
}

/// The rows under the keys of their lines, a later row in place of an earlier
/// one.
pub open spec fn rows_by_line(rows: Seq<TableNode>) -> Map<Seq<char>, TableNode>
    decreases rows.len(),
{
    if rows.len() == 0 {
        Map::empty()
    } else {
        rows_by_line(rows.drop_last()).insert(
            line_key(text::texts(rows.last().node.line@)),
            rows.last(),
        )
    }
}

/// A line that its key determines: no label holds the separator, and it is not
/// one empty label, whose key is that of the root.
pub open spec fn plain_line(line: Seq<Seq<char>>) -> bool {
    &&& text::none_holds(line, '\u{1f}')
    &&& line != seq![Seq::<char>::empty()]
}

/// Different lines have different keys.
pub proof fn lines_are_told_apart(a: Seq<Seq<char>>, b: Seq<Seq<char>>)
    requires
        plain_line(a),
        plain_line(b),
        line_key(a) == line_key(b),
    ensures
        a == b,
{
    reveal_strlit("\u{1f}");
    assert("\u{1f}"@ =~= seq!['\u{1f}']);
    if a.len() > 0 {
        text::splitting_undoes_joining(a, '\u{1f}');
    }
    if b.len() > 0 {
        text::splitting_undoes_joining(b, '\u{1f}');
    }
    let root = Seq::<char>::empty();
    assert(text::split(root, '\u{1f}') == seq![root]);
    if a.len() == 0 && b.len() == 0 {
        assert(a =~= b);
    }
}

/// The last row of a line is the one that is kept.
pub proof fn the_last_row_is_kept(rows: Seq<TableNode>, i: int)
    requires
        0 <= i < rows.len(),
        forall|j: int|
            i < j < rows.len() ==> line_key(text::texts((#[trigger] rows[j]).node.line@))
                != line_key(text::texts(rows[i].node.line@)),
    ensures
        rows_by_line(rows).dom().contains(line_key(text::texts(rows[i].node.line@))),
        rows_by_line(rows)[line_key(text::texts(rows[i].node.line@))] == rows[i],
    decreases rows.len(),
{
    if i < rows.len() - 1 {
        let rest = rows.drop_last();
        assert(rows[rows.len() - 1] == rows.last());
        assert forall|j: int| i < j < rest.len() implies line_key(
            text::texts((#[trigger] rest[j]).node.line@),
        ) != line_key(text::texts(rest[i].node.line@)) by {
            assert(rest[j] == rows[j]);
        }
        the_last_row_is_kept(rest, i);
    }
}

/// The stored nodes of one flop under one configuration.
#[derive(Debug)]
pub struct PostflopTable {
    pub header: TableHeader,
    pub nodes: TextMap<TableNode>,
}

impl PostflopTable {
    pub open spec fn wf(&self) -> bool {
        self.nodes.wf()
    }

    /// There is a node at this line.
    pub open spec fn stored(&self, line: Seq<Seq<char>>) -> bool {
        self.nodes@.dom().contains(line_key(line))
    }

    /// The node at this line.
    pub open spec fn at(&self, line: Seq<Seq<char>>) -> TableNode {
        self.nodes@[line_key(line)]
    }

    /// The table of these rows; `None` where the header is of a newer format.
    pub fn from_rows(header: TableHeader, rows: Vec<TableNode>) -> (r: Option<PostflopTable>)
        ensures
            r is Some == (header.version <= FORMAT_VERSION),
            r matches Some(t) ==> t.wf() && t.header == header && t.nodes@ == rows_by_line(rows@),
    {
        if header.version > FORMAT_VERSION {
            return None;
        }
        let mut nodes: TextMap<TableNode> = TextMap::new();
        let ghost all = rows@;
        let mut rest = rows;
        let mut done: usize = 0;
        let total: usize = rest.len();
        // Rows are taken from the front, so that a later one wins.
        let mut queue: Vec<TableNode> = Vec::new();
        while rest.len() > 0
            invariant
                total == all.len(),
                rest@.len() + queue@.len() == total,
                rest@ == all.take(rest@.len() as int),
                forall|k: int| 0 <= k < queue@.len() ==> #[trigger] queue@[k] == all[total - 1 - k],
            decreases rest@.len(),
        {
            match rest.pop() {
                Some(t) => {
                    queue.push(t);
                },
                None => {},
            }
        }
        while queue.len() > 0
            invariant
                total == all.len(),
                done + queue@.len() == total,
                nodes.wf(),
                nodes@ == rows_by_line(all.take(done as int)),
                forall|k: int| 0 <= k < queue@.len() ==> #[trigger] queue@[k] == all[total - 1 - k],
            decreases queue@.len(),
        {
            match queue.pop() {
                Some(t) => {
                    let key = text::join_all(&t.node.line, "\u{1f}");
                    proof {
                        assert(t == all[done as int]);
                        assert(all.take(done + 1).drop_last() =~= all.take(done as int));
                        assert(all.take(done + 1).last() == t);
                    }
                    nodes.insert(key, t);
                    done = done + 1;
                },
                None => {},
            }
        }
        assert(all.take(done as int) =~= all);
        Some(PostflopTable { header, nodes })
    }

    /// The stored node at an action line, e.g. `["Check", "deal 2c"]`; the root
    /// is the empty line.
    pub fn node(&self, line: &Vec<String>) -> (r: Option<&TableNode>)
        requires
            self.wf(),
        ensures
            r is Some == self.stored(text::texts(line@)),
            r matches Some(t) ==> *t == self.at(text::texts(line@)),
    {
        let key = text::join_all(line, "\u{1f}");
        self.nodes.get(key.as_str())
    }

    /// How many nodes are stored.
    pub fn len(&self) -> (r: usize)
        requires
            self.wf(),
        ensures
            r == self.nodes@.dom().len(),
    {
        self.nodes.len()
    }

    /// Whether no node is stored.
    pub fn is_empty(&self) -> (r: bool)
        requires
            self.wf(),
        ensures
            r == (self.nodes@.dom().len() == 0),
    {
        self.nodes.len() == 0
    }

    /// All stored nodes.
    pub fn nodes(&self) -> (r: &Vec<TableNode>)
        ensures
            r@ == self.nodes.values@,
    {
        &self.nodes.values
    }
}

/// The name of the header file for a configuration hash.
pub fn header_file(hash8: &str) -> (r: String)
    ensures
        r@ == "header-"@ + hash8@ + ".json"@,
{
    text::join3("header-", hash8, ".json")
}

/// The name of the table file of a flop.
pub fn table_file(flop: &str, hash8: &str) -> (r: String)
    ensures
        r@ == text::lower_case(flop@) + "-"@ + hash8@ + ".jsonl"@,
{
    let l = text::to_lower_case(flop);
    let s = text::join3(l.as_str(), "-", hash8);
    s.concat(".jsonl")
}

/// A directory name has no `:`; every other character of the formation is kept.
pub proof fn directories_hold_no_colon(s: Seq<char>)
    ensures
        colons_replaced(s).len() == s.len(),
        !colons_replaced(s).contains(':'),
        forall|i: int|
            0 <= i < s.len() && s[i] != ':' ==> #[trigger] colons_replaced(s)[i] == s[i],
        forall|i: int|
            0 <= i < s.len() && s[i] == ':' ==> #[trigger] colons_replaced(s)[i] == '_',
{
}

/// Only lines of rows are stored.
pub proof fn only_rows_are_stored(rows: Seq<TableNode>, key: Seq<char>)
    requires
        rows_by_line(rows).dom().contains(key),
    ensures
        exists|i: int|
            0 <= i < rows.len() && line_key(text::texts((#[trigger] rows[i]).node.line@)) == key
                && rows_by_line(rows)[key] == rows[i],
    decreases rows.len(),
{
    if rows.len() > 0 {
        let r = rows.drop_last();
        if key != line_key(text::texts(rows.last().node.line@)) {
            only_rows_are_stored(r, key);
            let i = choose|i: int|
                0 <= i < r.len() && line_key(text::texts((#[trigger] r[i]).node.line@)) == key
                    && rows_by_line(r)[key] == r[i];
            assert(rows[i] == r[i]);
        } else {
            assert(rows[rows.len() - 1] == rows.last());
        }
    }
}

} // verus!
