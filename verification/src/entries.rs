use vstd::prelude::*;

use crate::angofile::LinkType;
use crate::order::lex_le;
use crate::order::lex_lt;
use crate::order::lemma_lex_le_antisymmetric;
use crate::order::lemma_lex_le_connected;
use crate::order::lemma_lex_le_reflexive;
use crate::order::lemma_lex_le_transitive;
use crate::order::str_eq;
use crate::order::str_le;
use crate::order::str_lt;
use vstd::relations::sorted_by;
use vstd::relations::total_ordering;

verus! {

/// One immediate child of a directory, as recorded in the directory's
/// serialized entry list: the child's name, kind, and content digest.
pub struct Entry {
    pub name: String,
    pub ty: LinkType,
    pub hash: String,
}

/// Mathematical value of an `Entry`.
pub struct EntryV {
    pub name: Seq<char>,
    pub ty: LinkType,
    pub hash: Seq<char>,
}

impl View for Entry {
    type V = EntryV;

    open spec fn view(&self) -> EntryV {
        EntryV { name: self.name@, ty: self.ty, hash: self.hash@ }
    }
}

impl DeepView for Entry {
    type V = EntryV;

    open spec fn deep_view(&self) -> EntryV {
        self.view()
    }
}

impl Clone for Entry {
    fn clone(&self) -> (r: Self)
        ensures
            r@ == self@,
    {
        Entry { name: self.name.clone(), ty: self.ty, hash: self.hash.clone() }
    }
}

/// A fixed rank for each kind, used only to break ties in the canonical
/// entry order.
pub open spec fn ty_rank(t: LinkType) -> int {
    match t {
        LinkType::File => 0,
        LinkType::Folder => 1,
        LinkType::Chunk => 2,
    }
}

/// The canonical order of directory entries: by name, then kind, then
/// hash. It is a total order, so a sorted entry list is unique for a
/// given collection of entries.
pub open spec fn entry_le(a: EntryV, b: EntryV) -> bool {
    ||| lex_lt(a.name, b.name)
    ||| (a.name == b.name && (ty_rank(a.ty) < ty_rank(b.ty) || (a.ty == b.ty && lex_le(
        a.hash,
        b.hash,
    ))))
}

/// The canonical order as a first-class relation, for sorting.
pub open spec fn entry_leq() -> spec_fn(EntryV, EntryV) -> bool {
    |a: EntryV, b: EntryV| entry_le(a, b)
}

pub proof fn lemma_entry_le_total_ordering()
    ensures
        total_ordering(entry_leq()),
{
    let leq = entry_leq();
    assert forall|x: EntryV| #[trigger] leq(x, x) by {
        lemma_lex_le_reflexive(x.hash);
    }
    assert forall|x: EntryV, y: EntryV| #[trigger] leq(x, y) && #[trigger] leq(y, x) implies x
        == y by {
        if lex_lt(x.name, y.name) && lex_lt(y.name, x.name) {
            lemma_lex_le_antisymmetric(x.name, y.name);
        }
        assert(x.name == y.name);
        assert(x.ty == y.ty);
        lemma_lex_le_antisymmetric(x.hash, y.hash);
        assert(x == y);
    }
    assert forall|x: EntryV, y: EntryV, z: EntryV|
        #[trigger] leq(x, y) && #[trigger] leq(y, z) implies leq(x, z) by {
        lemma_entry_le_transitive_one(x, y, z);
    }
    assert forall|x: EntryV, y: EntryV| #![trigger leq(x, y)] leq(x, y) || leq(y, x) by {
        lemma_lex_le_connected(x.name, y.name);
        if x.name == y.name {
            lemma_lex_le_connected(x.hash, y.hash);
        }
    }
}

proof fn lemma_entry_le_transitive_one(x: EntryV, y: EntryV, z: EntryV)
    requires
        entry_le(x, y),
        entry_le(y, z),
    ensures
        entry_le(x, z),
{
    if lex_lt(x.name, y.name) || lex_lt(y.name, z.name) {
        lemma_lex_le_reflexive(x.name);
        lemma_lex_le_reflexive(y.name);
        lemma_lex_le_transitive(x.name, y.name, z.name);
        if x.name == z.name {
            lemma_lex_le_antisymmetric(x.name, y.name);
            lemma_lex_le_antisymmetric(y.name, z.name);
        }
    } else {
        assert(x.name == y.name && y.name == z.name);
        if x.ty == y.ty && y.ty == z.ty {
            lemma_lex_le_transitive(x.hash, y.hash, z.hash);
        }
    }
}

proof fn lemma_entry_le_connected_one(x: EntryV, y: EntryV)
    ensures
        entry_le(x, y) || entry_le(y, x),
{
    lemma_lex_le_connected(x.name, y.name);
    if lex_le(x.name, y.name) && lex_le(y.name, x.name) {
        lemma_lex_le_antisymmetric(x.name, y.name);
    }
    if x.name == y.name {
        lemma_lex_le_connected(x.hash, y.hash);
    }
}

fn ty_rank_exec(t: LinkType) -> (r: u8)
    ensures
        r as int == ty_rank(t),
{
    match t {
        LinkType::File => 0,
        LinkType::Folder => 1,
        LinkType::Chunk => 2,
    }
}

/// Decides the canonical entry order.
pub fn entry_le_exec(a: &Entry, b: &Entry) -> (r: bool)
    ensures
        r == entry_le(a@, b@),
{
    if str_lt(a.name.as_str(), b.name.as_str()) {
        return true;
    }
    if !str_eq(a.name.as_str(), b.name.as_str()) {
        return false;
    }
    let ra = ty_rank_exec(a.ty);
    let rb = ty_rank_exec(b.ty);
    if ra < rb {
        return true;
    }
    if rb < ra {
        return false;
    }
    proof {
        assert(a@.ty == b@.ty);
    }
    str_le(a.hash.as_str(), b.hash.as_str())
}

/// Returns the first position whose entry is not `<=` the new one: the
/// slot where the new entry belongs.
fn find_pos(out: &Vec<Entry>, e: &Entry) -> (j: usize)
    ensures
        j <= out.len(),
        forall|k: int| 0 <= k < j ==> entry_le(#[trigger] out.deep_view()[k], e@),
        j < out.len() ==> !entry_le(out.deep_view()[j as int], e@),
{
    let mut j: usize = 0;
    while j < out.len()
        invariant
            j <= out.len(),
            forall|k: int| 0 <= k < j ==> entry_le(#[trigger] out.deep_view()[k], e@),
        decreases out.len() - j,
    {
        if !entry_le_exec(&out[j], e) {
            return j;
        }
        j += 1;
    }
    j
}

/// Sorts a directory's entries into the canonical order. The result is
/// the unique sorted arrangement of the given entries.
pub fn sort_entries(input: &Vec<Entry>) -> (r: Vec<Entry>)
    ensures
        r.deep_view() == input.deep_view().sort_by(entry_leq()),
{
    let ghost leq = entry_leq();
    proof {
        lemma_entry_le_total_ordering();
    }
    let mut out: Vec<Entry> = Vec::new();
    proof {
        assert(out.deep_view() =~= Seq::<EntryV>::empty());
        assert(input.deep_view().subrange(0, 0) =~= Seq::<EntryV>::empty());
    }
    let mut idx: usize = 0;
    while idx < input.len()
        invariant
            idx <= input.len(),
            sorted_by(out.deep_view(), leq),
            out.deep_view().to_multiset() == input.deep_view().subrange(
                0,
                idx as int,
            ).to_multiset(),
            leq == entry_leq(),
            total_ordering(leq),
        decreases input.len() - idx,
    {
        broadcast use vstd::seq_lib::to_multiset_insert;
        broadcast use vstd::seq_lib::to_multiset_build;

        let e = input[idx].clone();
        let j = find_pos(&out, &e);
        let ghost pre = out.deep_view();
        out.insert(j, e);
        proof {
            assert(out.deep_view() =~= pre.insert(j as int, e@));
            assert forall|i1: int, i2: int|
                0 <= i1 < i2 < out.deep_view().len() implies #[trigger] leq(
                out.deep_view()[i1],
                out.deep_view()[i2],
            ) by {
                let dv = out.deep_view();
                let ji = j as int;
                if i1 < ji && i2 < ji {
                    assert(dv[i1] == pre[i1] && dv[i2] == pre[i2]);
                } else if i1 < ji && i2 == ji {
                    assert(dv[i1] == pre[i1] && dv[i2] == e@);
                } else if i1 < ji && i2 > ji {
                    assert(dv[i1] == pre[i1] && dv[i2] == pre[i2 - 1]);
                } else if i1 == ji && i2 > ji {
                    assert(dv[i1] == e@ && dv[i2] == pre[i2 - 1]);
                    assert(!entry_le(pre[ji], e@));
                    lemma_entry_le_connected_one(pre[ji], e@);
                    assert(leq(e@, pre[ji]));
                    if i2 - 1 > ji {
                        assert(leq(pre[ji], pre[i2 - 1]));
                    }
                } else {
                    assert(dv[i1] == pre[i1 - 1] && dv[i2] == pre[i2 - 1]);
                }
            }
            assert(input.deep_view().subrange(0, idx + 1) =~= input.deep_view().subrange(
                0,
                idx as int,
            ).push(input.deep_view()[idx as int]));
        }
        idx += 1;
    }
    proof {
        assert(input.deep_view().subrange(0, input.len() as int) =~= input.deep_view());
        input.deep_view().lemma_sort_by_ensures(leq);
        vstd::seq_lib::lemma_sorted_unique(
            out.deep_view(),
            input.deep_view().sort_by(leq),
            leq,
        );
        assert(out.deep_view() =~= input.deep_view().sort_by(leq));
    }
    out
}

/// How one character is written inside a quoted string of the entry
/// list: quotes and backslashes get a backslash prefix.
pub open spec fn escape_char(c: char) -> Seq<char> {
    if c == '"' || c == '\\' {
        seq!['\\', c]
    } else {
        seq![c]
    }
}

/// A name as written inside a quoted string of the entry list.
pub open spec fn escape(s: Seq<char>) -> Seq<char>
    decreases s.len(),
{
    if s.len() == 0 {
        Seq::empty()
    } else {
        escape_char(s[0]) + escape(s.drop_first())
    }
}

/// Escaping distributes over concatenation.
proof fn lemma_escape_concat(a: Seq<char>, b: Seq<char>)
    ensures
        escape(a + b) == escape(a) + escape(b),
    decreases a.len(),
{
    if a.len() == 0 {
        assert(a + b =~= b);
        assert(escape(a) + escape(b) =~= escape(b));
    } else {
        lemma_escape_concat(a.drop_first(), b);
        assert((a + b).drop_first() =~= a.drop_first() + b);
        assert((a + b)[0] == a[0]);
        assert(escape_char(a[0]) + (escape(a.drop_first()) + escape(b)) =~= (escape_char(a[0])
            + escape(a.drop_first())) + escape(b));
    }
}

/// A segment without quotes or backslashes escapes to itself.
proof fn lemma_escape_plain(s: Seq<char>)
    requires
        forall|j: int| 0 <= j < s.len() ==> s[j] != '"' && s[j] != '\\',
    ensures
        escape(s) == s,
    decreases s.len(),
{
    if s.len() > 0 {
        lemma_escape_plain(s.drop_first());
        assert(escape(s) =~= s);
    }
}

/// Writes a name as it stands inside a quoted string of the entry list.
pub fn escape_str(s: &str) -> (r: String)
    ensures
        r@ == escape(s@),
{
    let n = s.unicode_len();
    let mut out = String::new();
    let mut start: usize = 0;
    let mut i: usize = 0;
    proof {
        assert(s@.subrange(0, 0) =~= Seq::<char>::empty());
    }
    while i < n
        invariant
            n == s@.len(),
            0 <= start <= i <= n,
            out@ == escape(s@.subrange(0, start as int)),
            forall|j: int| start <= j < i ==> s@[j] != '"' && s@[j] != '\\',
        decreases n - i,
    {
        let c = s.get_char(i);
        if c == '"' || c == '\\' {
            let seg = s.substring_char(start, i);
            out.append(seg);
            if c == '"' {
                out.append("\\\"");
            } else {
                out.append("\\\\");
            }
            proof {
                reveal_strlit("\\\"");
                reveal_strlit("\\\\");
                let pre = s@.subrange(0, start as int);
                let mid = s@.subrange(start as int, i as int);
                lemma_escape_plain(mid);
                lemma_escape_concat(pre, mid);
                assert(pre + mid =~= s@.subrange(0, i as int));
                lemma_escape_concat(s@.subrange(0, i as int), seq![c]);
                assert(s@.subrange(0, i as int) + seq![c] =~= s@.subrange(0, i + 1));
                assert(seq![c].drop_first() =~= Seq::<char>::empty());
                assert(escape(Seq::<char>::empty()) =~= Seq::<char>::empty());
                assert(escape(seq![c]) =~= escape_char(c));
                assert(out@ =~= escape(s@.subrange(0, i + 1)));
            }
            start = i + 1;
        }
        i += 1;
    }
    let seg = s.substring_char(start, n);
    out.append(seg);
    proof {
        let pre = s@.subrange(0, start as int);
        let mid = s@.subrange(start as int, n as int);
        lemma_escape_plain(mid);
        lemma_escape_concat(pre, mid);
        assert(pre + mid =~= s@);
        assert(s@.subrange(0, n as int) =~= s@);
    }
    out
}

/// The textual name of a kind inside the entry list.
pub open spec fn ty_name(t: LinkType) -> Seq<char> {
    match t {
        LinkType::File => "File"@,
        LinkType::Folder => "Folder"@,
        LinkType::Chunk => "Chunk"@,
    }
}

fn ty_name_exec(t: LinkType) -> (r: &'static str)
    ensures
        r@ == ty_name(t),
{
    match t {
        LinkType::File => "File",
        LinkType::Folder => "Folder",
        LinkType::Chunk => "Chunk",
    }
}

/// The serialized text of one entry: a table header and one quoted
/// line for the name, the kind, and the hash.
pub open spec fn encode_entry(e: EntryV) -> Seq<char> {
    "[[entries]]\nname = \""@ + escape(e.name) + "\"\nty = \""@ + ty_name(e.ty)
        + "\"\nhash = \""@ + e.hash + "\"\n"@
}

/// The serialized text of a whole entry list, in the order given.
pub open spec fn encode_entries(es: Seq<EntryV>) -> Seq<char>
    decreases es.len(),
{
    if es.len() == 0 {
        Seq::empty()
    } else {
        encode_entries(es.drop_last()) + encode_entry(es.last())
    }
}

/// Serializes a directory's entry list, in the order given.
pub fn encode_entry_list(entries: &Vec<Entry>) -> (r: String)
    ensures
        r@ == encode_entries(entries.deep_view()),
{
    let mut out = String::new();
    let mut i: usize = 0;
    proof {
        assert(entries.deep_view().subrange(0, 0) =~= Seq::<EntryV>::empty());
    }
    while i < entries.len()
        invariant
            i <= entries.len(),
            out@ == encode_entries(entries.deep_view().subrange(0, i as int)),
        decreases entries.len() - i,
    {
        let e = &entries[i];
        out.append("[[entries]]\nname = \"");
        let esc = escape_str(e.name.as_str());
        out.append(esc.as_str());
        out.append("\"\nty = \"");
        out.append(ty_name_exec(e.ty));
        out.append("\"\nhash = \"");
        out.append(e.hash.as_str());
        out.append("\"\n");
        proof {
            let dv = entries.deep_view();
            assert(dv.subrange(0, i + 1).drop_last() =~= dv.subrange(0, i as int));
            assert(dv.subrange(0, i + 1).last() == dv[i as int]);
            assert(out@ =~= encode_entries(dv.subrange(0, i as int)) + encode_entry(dv[i as int]));
        }
        i += 1;
    }
    proof {
        assert(entries.deep_view().subrange(0, entries.len() as int) =~= entries.deep_view());
    }
    out
}

} // verus!
