//! Semantic difference reports between two documents: their records, the
//! change counts by category and the human-readable report.
use vstd::prelude::*;
use crate::text::{chars_of, decimal, push_decimal, push_str, str_eq};
use crate::matching::{DiffEntry, Matching};

verus! {

/// One changed field of an object: its name and the rendered values
/// before and after.
#[derive(Clone, Debug, PartialEq)]
pub struct FieldDiff {
    pub field: String,
    pub old_value: String,
    pub new_value: String,
}

/// What happened to an object or symbol between the two documents.
#[derive(Clone, Debug, PartialEq)]
pub enum ObjectDiffStatus {
    Added,
    Removed,
    Modified { changes: Vec<FieldDiff> },
}

/// The record of one object that differs.
#[derive(Clone, Debug, PartialEq)]
pub struct ObjectDiff {
    pub id: String,
    pub name: String,
    pub object_type: String,
    pub status: ObjectDiffStatus,
}

/// The record of one symbol (component) that differs.
#[derive(Clone, Debug, PartialEq)]
pub struct SymbolDiff {
    pub id: String,
    pub name: String,
    pub status: ObjectDiffStatus,
}

/// Object counts by outcome.
#[derive(Clone, Debug, PartialEq)]
pub struct DiffSummary {
    pub added_count: usize,
    pub removed_count: usize,
    pub modified_count: usize,
    pub unchanged_count: usize,
}

/// A semantic difference report between two documents.
#[derive(Clone, Debug, PartialEq)]
pub struct SemanticDiff {
    pub summary: DiffSummary,
    pub objects: Vec<ObjectDiff>,
    pub symbols: Vec<SymbolDiff>,
}

impl Default for DiffSummary {
    fn default() -> (r: Self)
        ensures
            r.added_count == 0 && r.removed_count == 0 && r.modified_count == 0 && r.unchanged_count == 0,
    {
        DiffSummary { added_count: 0, removed_count: 0, modified_count: 0, unchanged_count: 0 }
    }
}

impl Default for SemanticDiff {
    fn default() -> (r: Self)
        ensures
            r.summary.added_count == 0 && r.summary.removed_count == 0,
            r.summary.modified_count == 0 && r.summary.unchanged_count == 0,
            r.objects@.len() == 0,
            r.symbols@.len() == 0,
    {
        SemanticDiff { summary: DiffSummary::default(), objects: Vec::new(), symbols: Vec::new() }
    }
}

/// The field changes of a status (none unless modified).
pub open spec fn changes_of(s: ObjectDiffStatus) -> Seq<FieldDiff> {
    match s {
        ObjectDiffStatus::Modified { changes } => changes@,
        _ => Seq::empty(),
    }
}

/// Whether an object record is a modification touching one of `fields`.
pub open spec fn touches(o: ObjectDiff, fields: Seq<Seq<char>>) -> bool {
    o.status is Modified && exists|i: int| 0 <= i < changes_of(o.status).len()
        && #[trigger] fields.contains(changes_of(o.status)[i].field@)
}

/// How many object records are modifications touching one of `fields`.
pub open spec fn count_touching(objs: Seq<ObjectDiff>, fields: Seq<Seq<char>>) -> nat
    decreases objs.len(),
{
    if objs.len() == 0 {
        0
    } else {
        count_touching(objs.drop_last(), fields) + if touches(objs.last(), fields) { 1nat } else { 0nat }
    }
}

/// The text of each field name.
pub open spec fn texts_of(names: Seq<&str>) -> Seq<Seq<char>> {
    names.map_values(|s: &str| s@)
}

/// Whether the report finds no difference at all.
pub open spec fn spec_is_empty(d: SemanticDiff) -> bool {
    d.summary.added_count == 0 && d.summary.removed_count == 0
        && d.summary.modified_count == 0 && d.symbols@.len() == 0
}

fn field_in(field: &String, names: &Vec<&str>) -> (r: bool)
    ensures
        r == texts_of(names@).contains(field@),
{
    let n = names.len();
    let mut k: usize = 0;
    while k < n
        invariant
            k <= n,
            n == names@.len(),
            forall|q: int| 0 <= q < k ==> names@[q]@ != field@,
        decreases n - k,
    {
        if str_eq(field.as_str(), names[k]) {
            assert(texts_of(names@)[k as int] == field@);
            return true;
        }
        k += 1;
    }
    assert forall|q: int| 0 <= q < texts_of(names@).len() implies #[trigger] texts_of(names@)[q] != field@ by {
        assert(texts_of(names@)[q] == names@[q]@);
    }
    false
}

fn touches_any(o: &ObjectDiff, names: &Vec<&str>) -> (r: bool)
    ensures
        r == touches(*o, texts_of(names@)),
{
    match &o.status {
        ObjectDiffStatus::Modified { changes } => {
            let n = changes.len();
            let mut i: usize = 0;
            while i < n
                invariant
                    i <= n,
                    n == changes@.len(),
                    o.status == (ObjectDiffStatus::Modified { changes: *changes }),
                    forall|q: int| 0 <= q < i ==> !texts_of(names@).contains(#[trigger] changes@[q].field@),
                decreases n - i,
            {
                if field_in(&changes[i].field, names) {
                    assert(changes_of(o.status)[i as int] == changes@[i as int]);
                    return true;
                }
                i += 1;
            }
            assert forall|q: int| 0 <= q < changes_of(o.status).len() implies
                !#[trigger] texts_of(names@).contains(changes_of(o.status)[q].field@) by {
                assert(changes_of(o.status)[q] == changes@[q]);
            }
            false
        },
        _ => false,
    }
}

fn count_touching_any(objs: &Vec<ObjectDiff>, names: &Vec<&str>) -> (r: usize)
    ensures
        r == count_touching(objs@, texts_of(names@)),
{
    let n = objs.len();
    let mut c: usize = 0;
    let mut i: usize = 0;
    while i < n
        invariant
            i <= n,
            n == objs@.len(),
            c <= i,
            c == count_touching(objs@.take(i as int), texts_of(names@)),
        decreases n - i,
    {
        assert(objs@.take(i + 1).drop_last() =~= objs@.take(i as int));
        if touches_any(&objs[i], names) {
            c += 1;
        }
        i += 1;
    }
    assert(objs@.take(n as int) =~= objs@);
    c
}

impl SemanticDiff {
    /// No object added, removed or modified and no symbol changed.
    pub fn is_empty(&self) -> (r: bool)
        ensures
            r == spec_is_empty(*self),
    {
        self.summary.added_count == 0 && self.summary.removed_count == 0
            && self.summary.modified_count == 0 && self.symbols.len() == 0
    }

    /// Modified objects whose text or font size changed.
    pub fn count_text_changes(&self) -> (r: usize)
        ensures
            r == count_touching(self.objects@, seq!["text"@, "font-size"@]),
    {
        let names = vec!["text", "font-size"];
        assert(texts_of(names@) =~= seq!["text"@, "font-size"@]);
        count_touching_any(&self.objects, &names)
    }

    /// Modified objects whose geometry, node count or size changed.
    pub fn count_geometry_changes(&self) -> (r: usize)
        ensures
            r == count_touching(self.objects@, seq!["geometry"@, "node-count"@, "size"@]),
    {
        let names = vec!["geometry", "node-count", "size"];
        assert(texts_of(names@) =~= seq!["geometry"@, "node-count"@, "size"@]);
        count_touching_any(&self.objects, &names)
    }

    /// Modified objects whose fill, stroke or opacity changed.
    pub fn count_style_changes(&self) -> (r: usize)
        ensures
            r == count_touching(self.objects@, seq!["fill"@, "stroke"@, "opacity"@]),
    {
        let names = vec!["fill", "stroke", "opacity"];
        assert(texts_of(names@) =~= seq!["fill"@, "stroke"@, "opacity"@]);
        count_touching_any(&self.objects, &names)
    }

    /// Modified objects whose position, scale or rotation changed.
    pub fn count_transform_changes(&self) -> (r: usize)
        ensures
            r == count_touching(self.objects@, seq!["position"@, "scale"@, "rotation"@]),
    {
        let names = vec!["position", "scale", "rotation"];
        assert(texts_of(names@) =~= seq!["position"@, "scale"@, "rotation"@]);
        count_touching_any(&self.objects, &names)
    }
}

/// How an object is named in the report: `#id`, or its quoted name when
/// it has no id.
pub open spec fn id_display(o: ObjectDiff) -> Seq<char> {
    if o.id@.len() > 0 { "#"@ + o.id@ } else { "\""@ + o.name@ + "\""@ }
}

/// The report line of an object.
pub open spec fn object_line(o: ObjectDiff) -> Seq<char> {
    "  "@ + id_display(o) + " ("@ + o.object_type@ + ")\n"@
}

/// The report line of a field change.
pub open spec fn change_line(c: FieldDiff) -> Seq<char> {
    "    "@ + c.field@ + ": "@ + c.old_value@ + " -> "@ + c.new_value@ + "\n"@
}

/// The report lines of field changes, in order.
pub open spec fn change_lines(cs: Seq<FieldDiff>) -> Seq<char>
    decreases cs.len(),
{
    if cs.len() == 0 { Seq::empty() } else { change_lines(cs.drop_last()) + change_line(cs.last()) }
}

/// Outcome classes of the report's object sections.
pub open spec fn in_class(s: ObjectDiffStatus, class: u8) -> bool {
    match s {
        ObjectDiffStatus::Added => class == 1,
        ObjectDiffStatus::Removed => class == 2,
        ObjectDiffStatus::Modified { .. } => class == 0,
    }
}

/// The report entry of an object in a section: its line, and for a
/// modification its change lines.
pub open spec fn object_entry(o: ObjectDiff) -> Seq<char> {
    object_line(o) + change_lines(changes_of(o.status))
}

/// The entries of the objects of one class (0 modified, 1 added,
/// 2 removed), in order.
pub open spec fn class_entries(objs: Seq<ObjectDiff>, class: u8) -> Seq<char>
    decreases objs.len(),
{
    if objs.len() == 0 {
        Seq::empty()
    } else {
        class_entries(objs.drop_last(), class)
            + if in_class(objs.last().status, class) { object_entry(objs.last()) } else { Seq::empty() }
    }
}

/// Whether some object is of the class.
pub open spec fn any_in_class(objs: Seq<ObjectDiff>, class: u8) -> bool {
    exists|i: int| 0 <= i < objs.len() && in_class(#[trigger] objs[i].status, class)
}

/// A titled section, present only when it has entries.
pub open spec fn section(title: Seq<char>, present: bool, body: Seq<char>) -> Seq<char> {
    if present { title + body + "\n"@ } else { Seq::empty() }
}

/// The report entry of a symbol.
pub open spec fn symbol_entry(s: SymbolDiff) -> Seq<char> {
    match s.status {
        ObjectDiffStatus::Added => "  Added Symbol: #"@ + s.id@ + "\n"@,
        ObjectDiffStatus::Removed => "  Removed Symbol: #"@ + s.id@ + "\n"@,
        ObjectDiffStatus::Modified { changes } => "  Modified Symbol: #"@ + s.id@ + "\n"@ + change_lines(changes@),
    }
}

/// The symbol entries, in order.
pub open spec fn symbol_entries(syms: Seq<SymbolDiff>) -> Seq<char>
    decreases syms.len(),
{
    if syms.len() == 0 { Seq::empty() } else { symbol_entries(syms.drop_last()) + symbol_entry(syms.last()) }
}

/// The closing summary line.
pub open spec fn summary_line(s: DiffSummary) -> Seq<char> {
    "Summary: "@ + decimal(s.added_count as nat) + " added, "@ + decimal(s.removed_count as nat)
        + " removed, "@ + decimal(s.modified_count as nat) + " modified, "@
        + decimal(s.unchanged_count as nat) + " unchanged\n"@
}

/// The human-readable report: the modified, added and removed objects,
/// the symbol changes and the summary; or a single sentence when nothing
/// differs.
pub open spec fn report_text(d: SemanticDiff) -> Seq<char> {
    if spec_is_empty(d) {
        "No semantic differences detected. Documents are functionally identical.\n"@
    } else {
        section("Modified:\n"@, any_in_class(d.objects@, 0), class_entries(d.objects@, 0))
            + section("Added:\n"@, any_in_class(d.objects@, 1), class_entries(d.objects@, 1))
            + section("Removed:\n"@, any_in_class(d.objects@, 2), class_entries(d.objects@, 2))
            + section("Symbols / Components:\n"@, d.symbols@.len() > 0, symbol_entries(d.symbols@))
            + summary_line(d.summary)
    }
}

fn push_change_lines(out: &mut String, cs: &Vec<FieldDiff>)
    ensures
        final(out)@ == old(out)@ + change_lines(cs@),
{
    let n = cs.len();
    let mut i: usize = 0;
    assert(cs@.take(0) =~= Seq::<FieldDiff>::empty());
    assert(out@ =~= old(out)@ + change_lines(cs@.take(0)));
    while i < n
        invariant
            i <= n,
            n == cs@.len(),
            out@ == old(out)@ + change_lines(cs@.take(i as int)),
        decreases n - i,
    {
        assert(cs@.take(i + 1).drop_last() =~= cs@.take(i as int));
        let c = &cs[i];
        push_str(out, "    ");
        push_str(out, c.field.as_str());
        push_str(out, ": ");
        push_str(out, c.old_value.as_str());
        push_str(out, " -> ");
        push_str(out, c.new_value.as_str());
        push_str(out, "\n");
        assert(out@ =~= old(out)@ + change_lines(cs@.take(i + 1)));
        i += 1;
    }
    assert(cs@.take(n as int) =~= cs@);
}

fn push_object_line(out: &mut String, o: &ObjectDiff)
    ensures
        final(out)@ == old(out)@ + object_line(*o),
{
    push_str(out, "  ");
    if chars_of(o.id.as_str()).len() > 0 {
        push_str(out, "#");
        push_str(out, o.id.as_str());
    } else {
        push_str(out, "\"");
        push_str(out, o.name.as_str());
        push_str(out, "\"");
    }
    push_str(out, " (");
    push_str(out, o.object_type.as_str());
    push_str(out, ")\n");
    assert(out@ =~= old(out)@ + object_line(*o));
}

/// Appends the entries of one class; says whether there were any.
fn push_class_entries(out: &mut String, objs: &Vec<ObjectDiff>, class: u8) -> (any: bool)
    ensures
        final(out)@ == old(out)@ + class_entries(objs@, class),
        any == any_in_class(objs@, class),
{
    let n = objs.len();
    let mut i: usize = 0;
    let mut any = false;
    assert(out@ =~= old(out)@ + class_entries(objs@.take(0), class));
    while i < n
        invariant
            i <= n,
            n == objs@.len(),
            out@ == old(out)@ + class_entries(objs@.take(i as int), class),
            any == exists|q: int| 0 <= q < i && in_class(#[trigger] objs@[q].status, class),
        decreases n - i,
    {
        assert(objs@.take(i + 1).drop_last() =~= objs@.take(i as int));
        let o = &objs[i];
        let hit = match &o.status {
            ObjectDiffStatus::Added => class == 1,
            ObjectDiffStatus::Removed => class == 2,
            ObjectDiffStatus::Modified { .. } => class == 0,
        };
        if hit {
            push_object_line(out, o);
            match &o.status {
                ObjectDiffStatus::Modified { changes } => push_change_lines(out, changes),
                _ => {},
            }
            any = true;
        }
        assert(out@ =~= old(out)@ + class_entries(objs@.take(i + 1), class));
        i += 1;
    }
    assert(objs@.take(n as int) =~= objs@);
    any
}

fn push_symbol_entries(out: &mut String, syms: &Vec<SymbolDiff>)
    ensures
        final(out)@ == old(out)@ + symbol_entries(syms@),
{
    let n = syms.len();
    let mut i: usize = 0;
    assert(out@ =~= old(out)@ + symbol_entries(syms@.take(0)));
    while i < n
        invariant
            i <= n,
            n == syms@.len(),
            out@ == old(out)@ + symbol_entries(syms@.take(i as int)),
        decreases n - i,
    {
        assert(syms@.take(i + 1).drop_last() =~= syms@.take(i as int));
        let s = &syms[i];
        match &s.status {
            ObjectDiffStatus::Added => {
                push_str(out, "  Added Symbol: #");
                push_str(out, s.id.as_str());
                push_str(out, "\n");
            },
            ObjectDiffStatus::Removed => {
                push_str(out, "  Removed Symbol: #");
                push_str(out, s.id.as_str());
                push_str(out, "\n");
            },
            ObjectDiffStatus::Modified { changes } => {
                push_str(out, "  Modified Symbol: #");
                push_str(out, s.id.as_str());
                push_str(out, "\n");
                push_change_lines(out, changes);
            },
        }
        assert(out@ =~= old(out)@ + symbol_entries(syms@.take(i + 1)));
        i += 1;
    }
    assert(syms@.take(n as int) =~= syms@);
}

/// Appends a titled section if it has entries: the entries are first
/// written to `body`, and `present` says whether there were any.
fn push_section(out: &mut String, title: &str, present: bool, body: &String)
    ensures
        final(out)@ == old(out)@ + section(title@, present, body@),
{
    if present {
        push_str(out, title);
        push_str(out, body.as_str());
        push_str(out, "\n");
    }
    assert(out@ =~= old(out)@ + section(title@, present, body@));
}

impl SemanticDiff {
    /// The human-readable report for command-line output.
    pub fn format_text(&self) -> (r: String)
        ensures
            r@ == report_text(*self),
    {
        if self.is_empty() {
            return "No semantic differences detected. Documents are functionally identical.\n".to_string();
        }
        let mut out = String::new();
        let mut body = String::new();
        let any = push_class_entries(&mut body, &self.objects, 0);
        push_section(&mut out, "Modified:\n", any, &body);
        let mut body = String::new();
        let any = push_class_entries(&mut body, &self.objects, 1);
        push_section(&mut out, "Added:\n", any, &body);
        let mut body = String::new();
        let any = push_class_entries(&mut body, &self.objects, 2);
        push_section(&mut out, "Removed:\n", any, &body);
        let mut body = String::new();
        push_symbol_entries(&mut body, &self.symbols);
        push_section(&mut out, "Symbols / Components:\n", self.symbols.len() > 0, &body);
        let ghost before = out@;
        push_str(&mut out, "Summary: ");
        push_decimal(&mut out, self.summary.added_count);
        push_str(&mut out, " added, ");
        push_decimal(&mut out, self.summary.removed_count);
        push_str(&mut out, " removed, ");
        push_decimal(&mut out, self.summary.modified_count);
        push_str(&mut out, " modified, ");
        push_decimal(&mut out, self.summary.unchanged_count);
        push_str(&mut out, " unchanged\n");
        assert(out@ =~= before + summary_line(self.summary));
        assert(out@ =~= report_text(*self));
        out
    }
}

/// A field change by its texts.
pub type ChangeView = (Seq<char>, Seq<char>, Seq<char>);

pub open spec fn change_view(c: FieldDiff) -> ChangeView {
    (c.field@, c.old_value@, c.new_value@)
}

pub open spec fn changes_view(cs: Seq<FieldDiff>) -> Seq<ChangeView> {
    cs.map_values(|c: FieldDiff| change_view(c))
}

/// An object record by its texts: id, name, type, class (0 modified,
/// 1 added, 2 removed) and field changes.
pub struct RecordView {
    pub id: Seq<char>,
    pub name: Seq<char>,
    pub object_type: Seq<char>,
    pub class: u8,
    pub changes: Seq<ChangeView>,
}

pub open spec fn record_view(o: ObjectDiff) -> RecordView {
    RecordView {
        id: o.id@,
        name: o.name@,
        object_type: o.object_type@,
        class: match o.status {
            ObjectDiffStatus::Modified { .. } => 0u8,
            ObjectDiffStatus::Added => 1u8,
            ObjectDiffStatus::Removed => 2u8,
        },
        changes: changes_view(changes_of(o.status)),
    }
}

/// How many of the indices below `i` occur in `ms`: the stacking rank of
/// entry `i` among the paired ones.
pub open spec fn count_marked(ms: Seq<usize>, i: nat) -> nat
    decreases i,
{
    if i == 0 {
        0
    } else {
        count_marked(ms, (i - 1) as nat) + if ms.contains((i - 1) as usize) { 1nat } else { 0nat }
    }
}

pub open spec fn firsts(ps: Seq<(usize, usize)>) -> Seq<usize> {
    ps.map_values(|p: (usize, usize)| p.0)
}

pub open spec fn seconds(ps: Seq<(usize, usize)>) -> Seq<usize> {
    ps.map_values(|p: (usize, usize)| p.1)
}

/// The changes a pairing adds to the compared fields of a pair: a move to
/// another layer, and a change of stacking rank among the paired objects.
pub open spec fn placement_changes(a: Seq<DiffEntry>, b: Seq<DiffEntry>, ps: Seq<(usize, usize)>, i: usize, j: usize) -> Seq<ChangeView> {
    let g = if a[i as int].layer@ != b[j as int].layer@ {
        seq![("group membership"@, a[i as int].layer@, b[j as int].layer@)]
    } else {
        Seq::empty()
    };
    let ra = count_marked(firsts(ps), i as nat);
    let rb = count_marked(seconds(ps), j as nat);
    let z = if ra != rb {
        seq![("z-order"@, "index "@ + decimal(ra), "index "@ + decimal(rb))]
    } else {
        Seq::empty()
    };
    g + z
}

/// All changes of the `k`-th pair: the compared fields, then placement.
pub open spec fn pair_changes(a: Seq<DiffEntry>, b: Seq<DiffEntry>, ps: Seq<(usize, usize)>, cs: Seq<Seq<ChangeView>>, k: int) -> Seq<ChangeView> {
    cs[k] + placement_changes(a, b, ps, ps[k].0, ps[k].1)
}

/// The record of a pair that changed: the new id (the old one when the new
/// is empty), the new name and type.
pub open spec fn modified_record(a: Seq<DiffEntry>, b: Seq<DiffEntry>, i: usize, j: usize, changes: Seq<ChangeView>) -> RecordView {
    RecordView {
        id: if b[j as int].id@.len() > 0 { b[j as int].id@ } else { a[i as int].id@ },
        name: b[j as int].name@,
        object_type: b[j as int].object_type@,
        class: 0,
        changes,
    }
}

/// Records of the first `k` pairs that changed, in pair order.
pub open spec fn pair_records(a: Seq<DiffEntry>, b: Seq<DiffEntry>, ps: Seq<(usize, usize)>, cs: Seq<Seq<ChangeView>>, k: nat) -> Seq<RecordView>
    decreases k,
{
    if k == 0 {
        Seq::empty()
    } else {
        let r = pair_records(a, b, ps, cs, (k - 1) as nat);
        let all = pair_changes(a, b, ps, cs, k - 1);
        if all.len() == 0 { r } else { r.push(modified_record(a, b, ps[k - 1].0, ps[k - 1].1, all)) }
    }
}

/// How many of the first `k` pairs have no change at all.
pub open spec fn unchanged_pairs(a: Seq<DiffEntry>, b: Seq<DiffEntry>, ps: Seq<(usize, usize)>, cs: Seq<Seq<ChangeView>>, k: nat) -> nat
    decreases k,
{
    if k == 0 {
        0
    } else {
        unchanged_pairs(a, b, ps, cs, (k - 1) as nat) + if pair_changes(a, b, ps, cs, k - 1).len() == 0 { 1nat } else { 0nat }
    }
}

/// The record of an entry that only one side has.
pub open spec fn lone_record(e: DiffEntry, class: u8) -> RecordView {
    RecordView { id: e.id@, name: e.name@, object_type: e.object_type@, class, changes: Seq::empty() }
}

pub open spec fn lone_records(es: Seq<DiffEntry>, idx: Seq<usize>, class: u8) -> Seq<RecordView> {
    idx.map_values(|i: usize| lone_record(es[i as int], class))
}

/// The object records of a comparison: changed pairs, then added, then
/// removed entries.
pub open spec fn object_records(a: Seq<DiffEntry>, b: Seq<DiffEntry>, ps: Seq<(usize, usize)>, cs: Seq<Seq<ChangeView>>,
    added: Seq<usize>, removed: Seq<usize>) -> Seq<RecordView> {
    pair_records(a, b, ps, cs, ps.len()) + lone_records(b, added, 1) + lone_records(a, removed, 2)
}

fn copy_changes(cs: &Vec<FieldDiff>) -> (r: Vec<FieldDiff>)
    ensures
        changes_view(r@) == changes_view(cs@),
{
    let mut r: Vec<FieldDiff> = Vec::new();
    let n = cs.len();
    let mut i: usize = 0;
    while i < n
        invariant
            i <= n,
            n == cs@.len(),
            changes_view(r@) == changes_view(cs@.take(i as int)),
        decreases n - i,
    {
        let c = &cs[i];
        r.push(FieldDiff { field: c.field.clone(), old_value: c.old_value.clone(), new_value: c.new_value.clone() });
        assert(changes_view(cs@.take(i + 1)) =~= changes_view(cs@.take(i as int)).push(change_view(cs@[i as int])));
        assert(changes_view(r@) =~= changes_view(cs@.take(i + 1)));
        i += 1;
    }
    assert(cs@.take(n as int) =~= cs@);
    r
}

/// `ranks[i]` = how many of the indices below `i` are marked.
fn marked_ranks(len: usize, ms: &Vec<usize>) -> (ranks: Vec<usize>)
    ensures
        ranks@.len() == len,
        forall|i: int| 0 <= i < len ==> #[trigger] ranks@[i] == count_marked(ms@, i as nat),
{
    let mut flags: Vec<bool> = vec![false; len];
    let mut k: usize = 0;
    while k < ms.len()
        invariant
            k <= ms@.len(),
            flags@.len() == len,
            forall|i: int| 0 <= i < len ==> #[trigger] flags@[i] == exists|w: int| 0 <= w < k && #[trigger] ms@[w] == i as usize,
        decreases ms@.len() - k,
    {
        let v = ms[k];
        if v < len {
            flags.set(v, true);
        }
        proof {
            assert forall|i: int| 0 <= i < len implies #[trigger] flags@[i] == exists|w: int| 0 <= w < k + 1 && #[trigger] ms@[w] == i as usize by {
                if v == i as usize {
                    assert(ms@[k as int] == i as usize);
                }
            }
        }
        k += 1;
    }
    assert forall|i: int| 0 <= i < len implies #[trigger] flags@[i] == ms@.contains(i as usize) by {
        if ms@.contains(i as usize) {
            let w = choose|w: int| 0 <= w < ms@.len() && ms@[w] == i as usize;
            assert(ms@[w] == i as usize);
        }
    }
    let mut ranks: Vec<usize> = Vec::new();
    let mut c: usize = 0;
    let mut i: usize = 0;
    while i < len
        invariant
            i <= len,
            flags@.len() == len,
            forall|q: int| 0 <= q < len ==> #[trigger] flags@[q] == ms@.contains(q as usize),
            ranks@.len() == i,
            c == count_marked(ms@, i as nat),
            c <= i,
            forall|q: int| 0 <= q < i ==> #[trigger] ranks@[q] == count_marked(ms@, q as nat),
        decreases len - i,
    {
        ranks.push(c);
        if flags[i] {
            c += 1;
        }
        i += 1;
    }
    ranks
}

fn index_text(rank: usize) -> (r: String)
    ensures
        r@ == "index "@ + decimal(rank as nat),
{
    let mut s = String::new();
    push_str(&mut s, "index ");
    push_decimal(&mut s, rank);
    s
}

/// The records and counts of a comparison, given the pairing of the two
/// documents' top-level objects and, for each pair, the changes of its
/// compared fields; `symbols` are the symbol records.
pub fn assemble_diff(a: &Vec<DiffEntry>, b: &Vec<DiffEntry>, matching: &Matching, changes: &Vec<Vec<FieldDiff>>,
    symbols: Vec<SymbolDiff>) -> (d: SemanticDiff)
    requires
        forall|k: int| 0 <= k < matching.pairs@.len() ==> (#[trigger] matching.pairs@[k]).0 < a@.len() && matching.pairs@[k].1 < b@.len(),
        forall|k: int| 0 <= k < matching.added@.len() ==> (#[trigger] matching.added@[k]) < b@.len(),
        forall|k: int| 0 <= k < matching.removed@.len() ==> (#[trigger] matching.removed@[k]) < a@.len(),
        changes@.len() == matching.pairs@.len(),
    ensures
        d.objects@.map_values(|o: ObjectDiff| record_view(o)) == object_records(a@, b@, matching.pairs@,
            changes@.map_values(|v: Vec<FieldDiff>| changes_view(v@)), matching.added@, matching.removed@),
        d.summary.added_count == matching.added@.len(),
        d.summary.removed_count == matching.removed@.len(),
        d.summary.unchanged_count == unchanged_pairs(a@, b@, matching.pairs@,
            changes@.map_values(|v: Vec<FieldDiff>| changes_view(v@)), matching.pairs@.len()),
        d.summary.modified_count + d.summary.unchanged_count == matching.pairs@.len(),
        d.symbols == symbols,
{
    let ps = &matching.pairs;
    let ghost cs = changes@.map_values(|v: Vec<FieldDiff>| changes_view(v@));
    let np = ps.len();
    let mut firsts_v: Vec<usize> = Vec::new();
    let mut seconds_v: Vec<usize> = Vec::new();
    let mut k: usize = 0;
    while k < np
        invariant
            k <= np,
            np == ps@.len(),
            firsts_v@ == firsts(ps@.take(k as int)),
            seconds_v@ == seconds(ps@.take(k as int)),
        decreases np - k,
    {
        firsts_v.push(ps[k].0);
        seconds_v.push(ps[k].1);
        assert(firsts(ps@.take(k + 1)) =~= firsts(ps@.take(k as int)).push(ps@[k as int].0));
        assert(seconds(ps@.take(k + 1)) =~= seconds(ps@.take(k as int)).push(ps@[k as int].1));
        k += 1;
    }
    assert(ps@.take(np as int) =~= ps@);
    let ranks_a = marked_ranks(a.len(), &firsts_v);
    let ranks_b = marked_ranks(b.len(), &seconds_v);
    let mut objects: Vec<ObjectDiff> = Vec::new();
    let mut unchanged: usize = 0;
    let mut modified: usize = 0;
    let mut k: usize = 0;
    while k < np
        invariant
            k <= np,
            np == ps@.len(),
            ps == &matching.pairs,
            changes@.len() == np,
            cs == changes@.map_values(|v: Vec<FieldDiff>| changes_view(v@)),
            forall|q: int| 0 <= q < ps@.len() ==> (#[trigger] ps@[q]).0 < a@.len() && ps@[q].1 < b@.len(),
            ranks_a@.len() == a@.len(),
            forall|i: int| 0 <= i < a@.len() ==> #[trigger] ranks_a@[i] == count_marked(firsts(ps@), i as nat),
            ranks_b@.len() == b@.len(),
            forall|i: int| 0 <= i < b@.len() ==> #[trigger] ranks_b@[i] == count_marked(seconds(ps@), i as nat),
            objects@.map_values(|o: ObjectDiff| record_view(o)) == pair_records(a@, b@, ps@, cs, k as nat),
            unchanged == unchanged_pairs(a@, b@, ps@, cs, k as nat),
            unchanged + modified == k,
        decreases np - k,
    {
        let (i, j) = ps[k];
        let mut all = copy_changes(&changes[k]);
        let ghost before = changes_view(all@);
        assert(before == cs[k as int]);
        let ea = &a[i];
        let eb = &b[j];
        if !str_eq(ea.layer.as_str(), eb.layer.as_str()) {
            all.push(FieldDiff { field: "group membership".to_string(), old_value: ea.layer.clone(), new_value: eb.layer.clone() });
        }
        let ra = ranks_a[i];
        let rb = ranks_b[j];
        if ra != rb {
            all.push(FieldDiff { field: "z-order".to_string(), old_value: index_text(ra), new_value: index_text(rb) });
        }
        proof {
            assert(changes_view(all@) =~= pair_changes(a@, b@, ps@, cs, k as int));
        }
        let ghost recs = objects@.map_values(|o: ObjectDiff| record_view(o));
        if all.len() == 0 {
            unchanged += 1;
        } else {
            modified += 1;
            let id = if chars_of(eb.id.as_str()).len() > 0 { eb.id.clone() } else { ea.id.clone() };
            let rec = ObjectDiff {
                id,
                name: eb.name.clone(),
                object_type: eb.object_type.clone(),
                status: ObjectDiffStatus::Modified { changes: all },
            };
            objects.push(rec);
            proof {
                assert(objects@.map_values(|o: ObjectDiff| record_view(o)) =~= recs.push(record_view(rec)));
            }
        }
        k += 1;
    }
    let ghost paired = objects@.map_values(|o: ObjectDiff| record_view(o));
    let na = matching.added.len();
    let mut q: usize = 0;
    while q < na
        invariant
            q <= na,
            na == matching.added@.len(),
            forall|t: int| 0 <= t < matching.added@.len() ==> (#[trigger] matching.added@[t]) < b@.len(),
            objects@.map_values(|o: ObjectDiff| record_view(o)) == paired + lone_records(b@, matching.added@.take(q as int), 1),
        decreases na - q,
    {
        let e = &b[matching.added[q]];
        let rec = ObjectDiff { id: e.id.clone(), name: e.name.clone(), object_type: e.object_type.clone(), status: ObjectDiffStatus::Added };
        let ghost recs = objects@.map_values(|o: ObjectDiff| record_view(o));
        objects.push(rec);
        proof {
            assert(objects@.map_values(|o: ObjectDiff| record_view(o)) =~= recs.push(record_view(rec)));
            assert(changes_view(Seq::<FieldDiff>::empty()) =~= Seq::<ChangeView>::empty());
            assert(record_view(rec) == lone_record(b@[matching.added@[q as int] as int], 1));
            assert(lone_records(b@, matching.added@.take(q + 1), 1) =~= lone_records(b@, matching.added@.take(q as int), 1).push(record_view(rec)));
        }
        q += 1;
    }
    assert(matching.added@.take(na as int) =~= matching.added@);
    let ghost with_added = objects@.map_values(|o: ObjectDiff| record_view(o));
    let nr = matching.removed.len();
    let mut q: usize = 0;
    while q < nr
        invariant
            q <= nr,
            nr == matching.removed@.len(),
            forall|t: int| 0 <= t < matching.removed@.len() ==> (#[trigger] matching.removed@[t]) < a@.len(),
            objects@.map_values(|o: ObjectDiff| record_view(o)) == with_added + lone_records(a@, matching.removed@.take(q as int), 2),
        decreases nr - q,
    {
        let e = &a[matching.removed[q]];
        let rec = ObjectDiff { id: e.id.clone(), name: e.name.clone(), object_type: e.object_type.clone(), status: ObjectDiffStatus::Removed };
        let ghost recs = objects@.map_values(|o: ObjectDiff| record_view(o));
        objects.push(rec);
        proof {
            assert(objects@.map_values(|o: ObjectDiff| record_view(o)) =~= recs.push(record_view(rec)));
            assert(changes_view(Seq::<FieldDiff>::empty()) =~= Seq::<ChangeView>::empty());
            assert(record_view(rec) == lone_record(a@[matching.removed@[q as int] as int], 2));
            assert(lone_records(a@, matching.removed@.take(q + 1), 2) =~= lone_records(a@, matching.removed@.take(q as int), 2).push(record_view(rec)));
        }
        q += 1;
    }
    assert(matching.removed@.take(nr as int) =~= matching.removed@);
    SemanticDiff {
        summary: DiffSummary { added_count: na, removed_count: nr, modified_count: modified, unchanged_count: unchanged },
        objects,
        symbols,
    }
}

/// A symbol (component) of a document as the comparison sees it.
pub struct SymbolEntry {
    pub id: String,
    pub name: String,
}

pub open spec fn symbol_ids(es: Seq<SymbolEntry>) -> Seq<Seq<char>> {
    es.map_values(|e: SymbolEntry| e.id@)
}

/// No later entry repeats the id of entry `i` (an id lookup keeps the last
/// entry of each id).
pub open spec fn last_occurrence(ids: Seq<Seq<char>>, i: int) -> bool {
    forall|j: int| i < j < ids.len() ==> ids[j] != ids[i]
}

/// The last entry of `ids` with the given id, if any.
pub open spec fn last_with(ids: Seq<Seq<char>>, id: Seq<char>) -> Option<int> {
    if exists|j: int| 0 <= j < ids.len() && last_occurrence(ids, j) && ids[j] == id {
        Some(choose|j: int| 0 <= j < ids.len() && last_occurrence(ids, j) && ids[j] == id)
    } else {
        None
    }
}

/// Symbols of both documents with the same id, in the order of `a`.
pub open spec fn symbol_pairs_upto(ia: Seq<Seq<char>>, ib: Seq<Seq<char>>, n: nat) -> Seq<(usize, usize)>
    decreases n,
{
    if n == 0 {
        Seq::empty()
    } else {
        let r = symbol_pairs_upto(ia, ib, (n - 1) as nat);
        let i = (n - 1) as int;
        if last_occurrence(ia, i) && last_with(ib, ia[i]) is Some {
            r.push((i as usize, last_with(ib, ia[i])->0 as usize))
        } else {
            r
        }
    }
}

/// A symbol record by its texts: id, name, class (0 modified, 1 added,
/// 2 removed) and field changes.
pub struct SymbolView {
    pub id: Seq<char>,
    pub name: Seq<char>,
    pub class: u8,
    pub changes: Seq<ChangeView>,
}

pub open spec fn symbol_view(s: SymbolDiff) -> SymbolView {
    SymbolView {
        id: s.id@,
        name: s.name@,
        class: match s.status {
            ObjectDiffStatus::Modified { .. } => 0u8,
            ObjectDiffStatus::Added => 1u8,
            ObjectDiffStatus::Removed => 2u8,
        },
        changes: changes_view(changes_of(s.status)),
    }
}

/// Records of the first `n` symbols of `a`, with the number of pairs
/// passed: a paired symbol with changes is modified (named as in `b`), an
/// unpaired one removed.
pub open spec fn symbol_records_upto(a: Seq<SymbolEntry>, b: Seq<SymbolEntry>, cs: Seq<Seq<ChangeView>>, n: nat) -> (Seq<SymbolView>, nat)
    decreases n,
{
    if n == 0 {
        (Seq::empty(), 0)
    } else {
        let r = symbol_records_upto(a, b, cs, (n - 1) as nat);
        let ia = symbol_ids(a);
        let ib = symbol_ids(b);
        let i = (n - 1) as int;
        if !last_occurrence(ia, i) {
            r
        } else {
            match last_with(ib, ia[i]) {
                Some(j) => if cs[r.1 as int].len() > 0 {
                    (r.0.push(SymbolView { id: ia[i], name: b[j].name@, class: 0, changes: cs[r.1 as int] }), r.1 + 1)
                } else {
                    (r.0, r.1 + 1)
                },
                None => (r.0.push(SymbolView { id: ia[i], name: a[i].name@, class: 2, changes: Seq::empty() }), r.1),
            }
        }
    }
}

/// Records of the symbols only `b` has, in order.
pub open spec fn symbols_added_upto(a: Seq<SymbolEntry>, b: Seq<SymbolEntry>, n: nat) -> Seq<SymbolView>
    decreases n,
{
    if n == 0 {
        Seq::empty()
    } else {
        let r = symbols_added_upto(a, b, (n - 1) as nat);
        let ia = symbol_ids(a);
        let ib = symbol_ids(b);
        let j = (n - 1) as int;
        if last_occurrence(ib, j) && last_with(ia, ib[j]) is None {
            r.push(SymbolView { id: ib[j], name: b[j].name@, class: 1, changes: Seq::empty() })
        } else {
            r
        }
    }
}

fn last_flags(es: &Vec<SymbolEntry>) -> (r: Vec<bool>)
    ensures
        r@.len() == es@.len(),
        forall|i: int| 0 <= i < es@.len() ==> r@[i] == last_occurrence(symbol_ids(es@), i),
{
    let n = es.len();
    let ghost ids = symbol_ids(es@);
    let mut r: Vec<bool> = Vec::new();
    let mut i: usize = 0;
    while i < n
        invariant
            i <= n,
            n == es@.len(),
            ids == symbol_ids(es@),
            r@.len() == i,
            forall|k: int| 0 <= k < i ==> r@[k] == last_occurrence(ids, k),
        decreases n - i,
    {
        let mut keep = true;
        assert(ids[i as int] == es@[i as int].id@);
        let mut j: usize = i + 1;
        while keep && j < n
            invariant
                i < j <= n,
                n == es@.len(),
                ids == symbol_ids(es@),
                keep ==> forall|q: int| i < q < j ==> ids[q] != ids[i as int],
                !keep ==> !last_occurrence(ids, i as int),
            decreases n - j,
        {
            assert(ids[j as int] == es@[j as int].id@);
            if str_eq(es[j].id.as_str(), es[i].id.as_str()) {
                keep = false;
            }
            j += 1;
        }
        r.push(keep);
        i += 1;
    }
    r
}

fn find_last(es: &Vec<SymbolEntry>, flags: &Vec<bool>, id: &str) -> (r: Option<usize>)
    requires
        flags@.len() == es@.len(),
        forall|i: int| 0 <= i < es@.len() ==> flags@[i] == last_occurrence(symbol_ids(es@), i),
    ensures
        match r {
            Some(j) => j < es@.len() && last_with(symbol_ids(es@), id@) == Some(j as int),
            None => last_with(symbol_ids(es@), id@) is None,
        },
{
    let n = es.len();
    let ghost ids = symbol_ids(es@);
    let mut j: usize = 0;
    while j < n
        invariant
            j <= n,
            n == es@.len(),
            ids == symbol_ids(es@),
            flags@.len() == n,
            forall|i: int| 0 <= i < es@.len() ==> flags@[i] == last_occurrence(ids, i),
            forall|q: int| 0 <= q < j && last_occurrence(ids, q) ==> ids[q] != id@,
        decreases n - j,
    {
        assert(ids[j as int] == es@[j as int].id@);
        if flags[j] && str_eq(es[j].id.as_str(), id) {
            proof {
                let c = choose|c: int| 0 <= c < ids.len() && last_occurrence(ids, c) && ids[c] == id@;
                assert(last_occurrence(ids, j as int));
                if c != j {
                    if c < j {
                        assert(ids[c] != id@);
                    } else {
                        assert(ids[c] != ids[j as int]);
                    }
                }
            }
            return Some(j);
        }
        j += 1;
    }
    None
}

/// The pairs of symbols of `a` and `b` with the same id, in the order of
/// `a` (the last symbol of each id on either side).
pub fn symbol_pairs(a: &Vec<SymbolEntry>, b: &Vec<SymbolEntry>) -> (r: Vec<(usize, usize)>)
    ensures
        r@ == symbol_pairs_upto(symbol_ids(a@), symbol_ids(b@), a@.len()),
        forall|k: int| 0 <= k < r@.len() ==> (#[trigger] r@[k]).0 < a@.len() && r@[k].1 < b@.len(),
{
    let fa = last_flags(a);
    let fb = last_flags(b);
    let ghost ia = symbol_ids(a@);
    let ghost ib = symbol_ids(b@);
    let n = a.len();
    let mut r: Vec<(usize, usize)> = Vec::new();
    let mut i: usize = 0;
    while i < n
        invariant
            i <= n,
            n == a@.len(),
            ia == symbol_ids(a@),
            ib == symbol_ids(b@),
            fa@.len() == n,
            forall|k: int| 0 <= k < a@.len() ==> fa@[k] == last_occurrence(ia, k),
            fb@.len() == b@.len(),
            forall|k: int| 0 <= k < b@.len() ==> fb@[k] == last_occurrence(ib, k),
            r@ == symbol_pairs_upto(ia, ib, i as nat),
            forall|k: int| 0 <= k < r@.len() ==> (#[trigger] r@[k]).0 < a@.len() && r@[k].1 < b@.len(),
        decreases n - i,
    {
        assert(ia[i as int] == a@[i as int].id@);
        if fa[i] {
            if let Some(j) = find_last(b, &fb, a[i].id.as_str()) {
                r.push((i, j));
            }
        }
        i += 1;
    }
    r
}

/// The symbol records of a comparison: for each symbol of `a`, modified
/// when `b` has one with its id and `changes` (one list per pair of
/// `symbol_pairs`) is not empty, removed when `b` has none; then the
/// symbols only `b` has, as added.
pub fn symbol_diffs(a: &Vec<SymbolEntry>, b: &Vec<SymbolEntry>, changes: &Vec<Vec<FieldDiff>>) -> (r: Vec<SymbolDiff>)
    requires
        changes@.len() == symbol_pairs_upto(symbol_ids(a@), symbol_ids(b@), a@.len()).len(),
    ensures
        r@.map_values(|s: SymbolDiff| symbol_view(s)) ==
            symbol_records_upto(a@, b@, changes@.map_values(|v: Vec<FieldDiff>| changes_view(v@)), a@.len()).0
            + symbols_added_upto(a@, b@, b@.len()),
{
    let fa = last_flags(a);
    let fb = last_flags(b);
    let ghost ia = symbol_ids(a@);
    let ghost ib = symbol_ids(b@);
    let ghost cs = changes@.map_values(|v: Vec<FieldDiff>| changes_view(v@));
    let n = a.len();
    let mut r: Vec<SymbolDiff> = Vec::new();
    let mut p: usize = 0;
    let mut i: usize = 0;
    while i < n
        invariant
            i <= n,
            n == a@.len(),
            ia == symbol_ids(a@),
            ib == symbol_ids(b@),
            cs == changes@.map_values(|v: Vec<FieldDiff>| changes_view(v@)),
            changes@.len() == symbol_pairs_upto(ia, ib, n as nat).len(),
            fa@.len() == n,
            forall|k: int| 0 <= k < a@.len() ==> fa@[k] == last_occurrence(ia, k),
            fb@.len() == b@.len(),
            forall|k: int| 0 <= k < b@.len() ==> fb@[k] == last_occurrence(ib, k),
            r@.map_values(|s: SymbolDiff| symbol_view(s)) == symbol_records_upto(a@, b@, cs, i as nat).0,
            p == symbol_records_upto(a@, b@, cs, i as nat).1,
            p == symbol_pairs_upto(ia, ib, i as nat).len(),
        decreases n - i,
    {
        proof { lemma_pairs_grow(ia, ib, (i + 1) as nat, n as nat); }
        assert(ia[i as int] == a@[i as int].id@);
        let ghost before = r@.map_values(|s: SymbolDiff| symbol_view(s));
        if fa[i] {
            match find_last(b, &fb, a[i].id.as_str()) {
                Some(j) => {
                    let all = copy_changes(&changes[p]);
                    assert(changes_view(all@) == cs[p as int]);
                    if all.len() > 0 {
                        let rec = SymbolDiff { id: a[i].id.clone(), name: b[j].name.clone(), status: ObjectDiffStatus::Modified { changes: all } };
                        r.push(rec);
                        assert(r@.map_values(|s: SymbolDiff| symbol_view(s)) =~= before.push(symbol_view(rec)));
                    }
                    assert(p < changes@.len());
                    assert(changes@.len() == changes.len());
                    p += 1;
                },
                None => {
                    let rec = SymbolDiff { id: a[i].id.clone(), name: a[i].name.clone(), status: ObjectDiffStatus::Removed };
                    r.push(rec);
                    assert(changes_view(Seq::<FieldDiff>::empty()) =~= Seq::<ChangeView>::empty());
                    assert(r@.map_values(|s: SymbolDiff| symbol_view(s)) =~= before.push(symbol_view(rec)));
                },
            }
        }
        i += 1;
    }
    let ghost mid = r@.map_values(|s: SymbolDiff| symbol_view(s));
    let m = b.len();
    let mut j: usize = 0;
    while j < m
        invariant
            j <= m,
            m == b@.len(),
            ia == symbol_ids(a@),
            ib == symbol_ids(b@),
            fa@.len() == a@.len(),
            forall|k: int| 0 <= k < a@.len() ==> fa@[k] == last_occurrence(ia, k),
            fb@.len() == m,
            forall|k: int| 0 <= k < b@.len() ==> fb@[k] == last_occurrence(ib, k),
            r@.map_values(|s: SymbolDiff| symbol_view(s)) == mid + symbols_added_upto(a@, b@, j as nat),
        decreases m - j,
    {
        assert(ib[j as int] == b@[j as int].id@);
        let ghost before = r@.map_values(|s: SymbolDiff| symbol_view(s));
        if fb[j] {
            if find_last(a, &fa, b[j].id.as_str()).is_none() {
                let rec = SymbolDiff { id: b[j].id.clone(), name: b[j].name.clone(), status: ObjectDiffStatus::Added };
                r.push(rec);
                assert(changes_view(Seq::<FieldDiff>::empty()) =~= Seq::<ChangeView>::empty());
                assert(r@.map_values(|s: SymbolDiff| symbol_view(s)) =~= before.push(symbol_view(rec)));
            }
        }
        j += 1;
    }
    r
}

proof fn lemma_pairs_grow(ia: Seq<Seq<char>>, ib: Seq<Seq<char>>, i: nat, n: nat)
    requires
        i <= n,
    ensures
        symbol_pairs_upto(ia, ib, i).len() <= symbol_pairs_upto(ia, ib, n).len(),
    decreases n,
{
    if n > i {
        lemma_pairs_grow(ia, ib, i, (n - 1) as nat);
    }
}


/// A report is empty exactly when it counts no added, removed or modified
/// object and lists no symbol change.
pub proof fn law_empty_report_counts_nothing(d: SemanticDiff)
    ensures
        spec_is_empty(d) ==> d.summary.added_count == 0,
        spec_is_empty(d) ==> d.summary.removed_count == 0,
        spec_is_empty(d) ==> d.summary.modified_count == 0,
        spec_is_empty(d) ==> d.symbols@.len() == 0,
        (d.summary.added_count > 0 || d.summary.removed_count > 0 || d.summary.modified_count > 0
            || d.symbols@.len() > 0) ==> !spec_is_empty(d),
{
}

proof fn lemma_class_entries_hold(objs: Seq<ObjectDiff>, class: u8, i: int)
    requires
        0 <= i < objs.len(),
        in_class(objs[i].status, class),
    ensures
        exists|pre: Seq<char>, post: Seq<char>| class_entries(objs, class) == pre + object_entry(objs[i]) + post,
    decreases objs.len(),
{
    let prev = objs.drop_last();
    if i == objs.len() - 1 {
        let pre = class_entries(prev, class);
        assert(class_entries(objs, class) == pre + object_entry(objs[i]) + Seq::<char>::empty());
    } else {
        lemma_class_entries_hold(prev, class, i);
        assert(prev[i] == objs[i]);
        let (pre, post) = choose|pre: Seq<char>, post: Seq<char>| class_entries(prev, class) == pre + object_entry(objs[i]) + post;
        let tail = if in_class(objs.last().status, class) { object_entry(objs.last()) } else { Seq::<char>::empty() };
        assert(class_entries(objs, class) == pre + object_entry(objs[i]) + (post + tail));
    }
}

/// A report that counts a modified object is not the "no differences"
/// sentence: its text holds the entry (line and field changes) of every
/// modified object, and it ends with the summary line.
pub proof fn law_modified_objects_are_reported(d: SemanticDiff, i: int)
    requires
        d.summary.modified_count > 0,
        0 <= i < d.objects@.len(),
        d.objects@[i].status is Modified,
    ensures
        !spec_is_empty(d),
        exists|pre: Seq<char>, post: Seq<char>| report_text(d) == pre + object_entry(d.objects@[i]) + post,
        exists|pre: Seq<char>| report_text(d) == pre + summary_line(d.summary),
{
    let objs = d.objects@;
    assert(in_class(objs[i].status, 0));
    lemma_class_entries_hold(objs, 0, i);
    assert(any_in_class(objs, 0));
    let (pre, post) = choose|pre: Seq<char>, post: Seq<char>| class_entries(objs, 0) == pre + object_entry(objs[i]) + post;
    let rest = section("Added:\n"@, any_in_class(objs, 1), class_entries(objs, 1))
        + section("Removed:\n"@, any_in_class(objs, 2), class_entries(objs, 2))
        + section("Symbols / Components:\n"@, d.symbols@.len() > 0, symbol_entries(d.symbols@))
        + summary_line(d.summary);
    assert(report_text(d) =~= ("Modified:\n"@ + pre) + object_entry(objs[i]) + (post + "\n"@ + rest));
    let before = section("Modified:\n"@, true, class_entries(objs, 0))
        + section("Added:\n"@, any_in_class(objs, 1), class_entries(objs, 1))
        + section("Removed:\n"@, any_in_class(objs, 2), class_entries(objs, 2))
        + section("Symbols / Components:\n"@, d.symbols@.len() > 0, symbol_entries(d.symbols@));
    assert(report_text(d) =~= before + summary_line(d.summary));
}

} // verus!
