//! Kit manifests as a palette: short names, the search, the rows and the shelf.

use vstd::prelude::*;
use crate::text;

verus! {

/// One placeable prop, with the bounds it was baked at, as float bits.
pub struct KitProp {
    /// The prop's name, which is its source node's name sanitized.
    pub name: String,
    /// Asset-relative path to the `.bsn`.
    pub bsn: String,
    /// Corners of the prop's own box, in metres, at its baked origin.
    pub min: [u32; 3],
    pub max: [u32; 3],
}

/// One baked prop set.
pub struct Kit {
    pub props: Vec<KitProp>,
}

/// Whether a segment of a name is shouted: upper-case letters and digits, at least one.
pub open spec fn shouted(s: Seq<char>) -> bool {
    s.len() > 0 && forall|i: int|
        0 <= i < s.len() ==> ('A' <= #[trigger] s[i] <= 'Z' || '0' <= s[i] <= '9')
}

/// A name without its leading shouted segments, of which the last segment is none.
pub open spec fn without_shouts(name: Seq<char>) -> Seq<char>
    decreases name.len(),
    via shouts_end
{
    match text::following(name, '_') {
        Some(tail) => if shouted(text::up_to(name, '_')) && tail.len() > 0 {
            without_shouts(tail)
        } else {
            name
        },
        None => name,
    }
}

#[via_fn]
proof fn shouts_end(name: Seq<char>) {
    text::lemma_following_shorter(name, '_');
}

fn is_shouted(s: &str) -> (r: bool)
    ensures
        r == shouted(s@),
{
    let c = text::chars_of(s);
    if c.len() == 0 {
        return false;
    }
    for i in 0..c.len()
        invariant
            c@ == s@,
            forall|k: int|
                0 <= k < i ==> ('A' <= #[trigger] c@[k] <= 'Z' || '0' <= c@[k] <= '9'),
    {
        let x = c[i];
        if !(('A' <= x && x <= 'Z') || ('0' <= x && x <= '9')) {
            assert(!('A' <= s@[i as int] <= 'Z' || '0' <= s@[i as int] <= '9'));
            return false;
        }
    }
    true
}

impl KitProp {
    /// The name with its namespace prefix removed, for display only: leading segments that are
    /// entirely upper-case or digits are dropped, up to the first that is not, and never all of
    /// them.
    pub fn short_name(&self) -> (r: String)
        ensures
            r@ == without_shouts(self.name@),
    {
        let mut rest = self.name.clone();
        let mut more = true;
        while more
            invariant
                more ==> without_shouts(rest@) == without_shouts(self.name@),
                !more ==> rest@ == without_shouts(self.name@),
            decreases (if more {
                rest@.len() + 1
            } else {
                0
            }),
        {
            proof {
                text::lemma_following_shorter(rest@, '_');
            }
            let (head, tail) = text::split_at_char(rest.as_str(), '_');
            match tail {
                Some(t) => {
                    if is_shouted(head.as_str()) && !t.as_str().is_empty() {
                        rest = t;
                    } else {
                        more = false;
                    }
                },
                None => {
                    more = false;
                },
            }
        }
        rest
    }
}

/// A short name is not empty where the name is not, and has no shout left before its last segment.
pub proof fn short_names_say_something(name: Seq<char>)
    requires
        name.len() > 0,
    ensures
        without_shouts(name).len() > 0,
        without_shouts(without_shouts(name)) == without_shouts(name),
    decreases name.len(),
{
    text::lemma_following_shorter(name, '_');
    if let Some(tail) = text::following(name, '_') {
        if shouted(text::up_to(name, '_')) && tail.len() > 0 {
            short_names_say_something(tail);
        }
    }
}

/// The stem of a manifest's file name, where it is one.
pub fn kit_stem(file_name: &str) -> (r: Option<String>)
    ensures
        match r {
            Some(s) => file_name@ == s@ + ".kit.ron"@,
            None => !text::ends_in(file_name@, ".kit.ron"@),
        },
{
    if text::ends_with(file_name, ".kit.ron") {
        let stem = text::drop_suffix(file_name, ".kit.ron");
        assert(file_name@ =~= stem@ + ".kit.ron"@);
        Some(stem)
    } else {
        None
    }
}

/// A kit in the palette: its manifest's stem, and what it holds once it is loaded.
pub struct PaletteKit {
    pub name: String,
    pub kit: Option<Kit>,
}

/// One row of the palette: the kit and the prop it stands for, and its label.
pub struct PaletteRow {
    pub kit: usize,
    pub prop: usize,
    pub label: String,
}

/// A row, by its contents.
pub ghost struct PaletteRowView {
    pub kit: int,
    pub prop: int,
    pub label: Seq<char>,
}

impl View for PaletteRow {
    type V = PaletteRowView;

    open spec fn view(&self) -> PaletteRowView {
        PaletteRowView { kit: self.kit as int, prop: self.prop as int, label: self.label@ }
    }
}

/// Rows, by their contents.
pub open spec fn palette_views(rows: Seq<PaletteRow>) -> Seq<PaletteRowView> {
    rows.map_values(|r: PaletteRow| r@)
}

/// Whether a prop passes the search: its short name holds the text, letter case aside.
pub open spec fn passes(name: Seq<char>, filter: Seq<char>) -> bool {
    let needle = text::lowercased(filter);
    needle.len() == 0 || text::contains_text(text::lowercased(without_shouts(name)), needle)
}

/// The label of a prop, qualified by its kit only where there is more than one.
pub open spec fn prop_label(kit: Seq<char>, name: Seq<char>, multiple: bool) -> Seq<char> {
    if multiple {
        kit + "/"@ + without_shouts(name)
    } else {
        without_shouts(name)
    }
}

/// The rows of the first `upto` props of kit `k`.
pub open spec fn kit_rows(
    kit: PaletteKit,
    k: int,
    upto: nat,
    filter: Seq<char>,
    multiple: bool,
) -> Seq<PaletteRowView>
    decreases upto,
{
    if upto == 0 {
        seq![]
    } else {
        let most = kit_rows(kit, k, (upto - 1) as nat, filter, multiple);
        let name = kit.kit->0.props@[upto - 1].name@;
        if passes(name, filter) {
            most.push(
                (PaletteRowView { kit: k, prop: upto - 1, label: prop_label(kit.name@, name, multiple) }),
            )
        } else {
            most
        }
    }
}

/// Whether a kit is shown: it is loaded, and it is the one asked for, where one is.
pub open spec fn is_shown(kit: PaletteKit, only: Option<Seq<char>>) -> bool {
    kit.kit is Some && (match only {
        Some(want) => want == kit.name@,
        None => true,
    })
}

/// The rows of the first `upto` kits.
pub open spec fn palette_rows(
    kits: Seq<PaletteKit>,
    upto: nat,
    only: Option<Seq<char>>,
    filter: Seq<char>,
) -> Seq<PaletteRowView>
    decreases upto,
{
    if upto == 0 {
        seq![]
    } else {
        let most = palette_rows(kits, (upto - 1) as nat, only, filter);
        let k = kits[upto - 1];
        if is_shown(k, only) {
            most + kit_rows(k, upto - 1, k.kit->0.props@.len(), filter, kits.len() > 1)
        } else {
            most
        }
    }
}

/// How many props the shown kits among the first `upto` hold.
pub open spec fn prop_count(kits: Seq<PaletteKit>, upto: nat, only: Option<Seq<char>>) -> nat
    decreases upto,
{
    if upto == 0 {
        0
    } else {
        prop_count(kits, (upto - 1) as nat, only) + (if is_shown(kits[upto - 1], only) {
            kits[upto - 1].kit->0.props@.len()
        } else {
            0
        })
    }
}

/// The line above the search box.
pub open spec fn palette_header(kits: nat, filter: Seq<char>, shown: nat, total: nat) -> Seq<char> {
    if kits == 0 {
        "no .kit.ron manifests found -- bake one with `prop_import --per-group`"@
    } else if filter.len() == 0 {
        text::decimal(shown) + " props in "@ + text::decimal(kits) + " kit(s)"@
    } else {
        text::decimal(shown) + "/"@ + text::decimal(total) + " props"@
    }
}

/// The palette: its rows, and the line above the search box. The shelf shows exactly what the
/// list shows.
pub struct Palette {
    pub rows: Vec<PaletteRow>,
    pub header: String,
}

fn write_header(kits: usize, filter: &str, shown: usize, total: usize) -> (r: String)
    ensures
        r@ == palette_header(kits as nat, filter@, shown as nat, total as nat),
{
    if kits == 0 {
        return "no .kit.ron manifests found -- bake one with `prop_import --per-group`".to_owned();
    }
    let mut out = text::decimal_text(shown as u64);
    if filter.is_empty() {
        out.append(" props in ");
        text::push_decimal(&mut out, kits as u64);
        out.append(" kit(s)");
    } else {
        out.append("/");
        text::push_decimal(&mut out, total as u64);
        out.append(" props");
    }
    out
}

fn write_label(kit: &str, short: &str, multiple: bool) -> (r: String)
    ensures
        r@ == (if multiple {
            kit@ + "/"@ + short@
        } else {
            short@
        }),
{
    if multiple {
        let mut out = kit.to_owned();
        out.append("/");
        out.append(short);
        out
    } else {
        short.to_owned()
    }
}

fn add_kit(
    rows: &mut Vec<PaletteRow>,
    entry: &PaletteKit,
    props: &Vec<KitProp>,
    k: usize,
    filter: &str,
    multiple: bool,
)
    requires
        entry.kit matches Some(kit) && kit.props@ == props@,
    ensures
        palette_views(final(rows)@) == palette_views(old(rows)@) + kit_rows(
            *entry,
            k as int,
            props@.len(),
            filter@,
            multiple,
        ),
{
    let ghost base = palette_views(rows@);
    let needle = text::to_lower(filter);
    assert(palette_views(rows@) =~= base + kit_rows(*entry, k as int, 0, filter@, multiple));
    for i in 0..props.len()
        invariant
            needle@ == text::lowercased(filter@),
            entry.kit matches Some(kit) && kit.props@ == props@,
            palette_views(rows@) == base + kit_rows(
                *entry,
                k as int,
                i as nat,
                filter@,
                multiple,
            ),
    {
        let short = props[i].short_name();
        let low = text::to_lower(short.as_str());
        if needle.as_str().is_empty() || text::contains(low.as_str(), needle.as_str()) {
            assert(passes(props@[i as int].name@, filter@));
            let ghost before = rows@;
            let ghost most = kit_rows(*entry, k as int, i as nat, filter@, multiple);
            let label = write_label(entry.name.as_str(), short.as_str(), multiple);
            rows.push(PaletteRow { kit: k, prop: i, label });
            assert(palette_views(rows@) =~= palette_views(before).push(rows@.last()@));
            assert(palette_views(rows@) =~= base + most.push(rows@.last()@));
        }
    }
}

/// The rows that the search leaves, kit by kit, and the header.
pub fn rebuild_palette(kits: &Vec<PaletteKit>, only: Option<&str>, filter: &str) -> (r: Palette)
    requires
        prop_count(kits@, kits@.len(), crate::names::optional(only)) <= usize::MAX,
    ensures
        palette_views(r.rows@) == palette_rows(
            kits@,
            kits@.len(),
            crate::names::optional(only),
            filter@,
        ),
        r.header@ == palette_header(
            kits@.len(),
            filter@,
            r.rows@.len(),
            prop_count(kits@, kits@.len(), crate::names::optional(only)),
        ),
{
    let ghost want = crate::names::optional(only);
    let multiple = kits.len() > 1;
    let mut rows: Vec<PaletteRow> = Vec::new();
    let mut total: usize = 0;
    assert(palette_views(rows@) =~= palette_rows(kits@, 0, want, filter@));
    for k in 0..kits.len()
        invariant
            want == crate::names::optional(only),
            multiple == (kits@.len() > 1),
            prop_count(kits@, kits@.len(), want) <= usize::MAX,
            total == prop_count(kits@, k as nat, want),
            palette_views(rows@) == palette_rows(kits@, k as nat, want, filter@),
    {
        let entry = &kits[k];
        let asked = match only {
            Some(name) => text::same_text(name, entry.name.as_str()),
            None => true,
        };
        if let Some(kit) = &entry.kit {
            if asked {
                proof {
                    lemma_count_grows(kits@, (k + 1) as nat, kits@.len(), want);
                }
                total = total + kit.props.len();
                add_kit(&mut rows, entry, &kit.props, k, filter, multiple);
            }
        }
    }
    let header = write_header(kits.len(), filter, rows.len(), total);
    Palette { rows, header }
}

proof fn lemma_count_grows(kits: Seq<PaletteKit>, a: nat, b: nat, only: Option<Seq<char>>)
    requires
        a <= b,
    ensures
        prop_count(kits, a, only) <= prop_count(kits, b, only),
    decreases b,
{
    if a < b {
        lemma_count_grows(kits, a, (b - 1) as nat, only);
    }
}

/// Whether a row is that of a prop by its full or its short name.
pub open spec fn is_named(kits: Seq<PaletteKit>, row: PaletteRow, want: Seq<char>) -> bool {
    let name = kits[row.kit as int].kit->0.props@[row.prop as int].name@;
    name == want || without_shouts(name) == want
}

/// Whether a row stands for a prop that is there.
pub open spec fn row_exists(kits: Seq<PaletteKit>, row: PaletteRow) -> bool {
    row.kit < kits.len() && kits[row.kit as int].kit is Some && row.prop
        < kits[row.kit as int].kit->0.props@.len()
}

/// The first row whose prop has a name, full or short.
pub fn select_row(kits: &Vec<PaletteKit>, rows: &Vec<PaletteRow>, want: &str) -> (r: Option<usize>)
    requires
        forall|i: int| 0 <= i < rows@.len() ==> row_exists(kits@, #[trigger] rows@[i]),
    ensures
        match r {
            Some(i) => i < rows@.len() && is_named(kits@, rows@[i as int], want@) && forall|k: int|
                0 <= k < i ==> !is_named(kits@, #[trigger] rows@[k], want@),
            None => forall|k: int|
                0 <= k < rows@.len() ==> !is_named(kits@, #[trigger] rows@[k], want@),
        },
{
    for i in 0..rows.len()
        invariant
            forall|i: int| 0 <= i < rows@.len() ==> row_exists(kits@, #[trigger] rows@[i]),
            forall|k: int| 0 <= k < i ==> !is_named(kits@, #[trigger] rows@[k], want@),
    {
        let row = &rows[i];
        assert(row_exists(kits@, rows@[i as int]));
        if let Some(kit) = &kits[row.kit].kit {
            let prop = &kit.props[row.prop];
            if text::same_text(prop.name.as_str(), want) || text::same_text(
                prop.short_name().as_str(),
                want,
            ) {
                return Some(i);
            }
        }
    }
    None
}

/// Every row of the palette stands for a prop that is there.
pub proof fn palette_rows_exist(
    kits: Seq<PaletteKit>,
    upto: nat,
    only: Option<Seq<char>>,
    filter: Seq<char>,
    i: int,
)
    requires
        upto <= kits.len(),
        0 <= i < palette_rows(kits, upto, only, filter).len(),
    ensures
        ({
            let row = palette_rows(kits, upto, only, filter)[i];
            &&& 0 <= row.kit < upto
            &&& is_shown(kits[row.kit], only)
            &&& 0 <= row.prop < kits[row.kit].kit->0.props@.len()
            &&& passes(kits[row.kit].kit->0.props@[row.prop].name@, filter)
        }),
    decreases upto,
{
    let most = palette_rows(kits, (upto - 1) as nat, only, filter);
    if i < most.len() {
        palette_rows_exist(kits, (upto - 1) as nat, only, filter, i);
    } else {
        let k = kits[upto - 1];
        lemma_kit_rows(k, upto - 1, k.kit->0.props@.len(), filter, kits.len() > 1, i - most.len());
    }
}

proof fn lemma_kit_rows(
    kit: PaletteKit,
    k: int,
    upto: nat,
    filter: Seq<char>,
    multiple: bool,
    i: int,
)
    requires
        0 <= i < kit_rows(kit, k, upto, filter, multiple).len(),
    ensures
        ({
            let row = kit_rows(kit, k, upto, filter, multiple)[i];
            &&& row.kit == k
            &&& 0 <= row.prop < upto
            &&& passes(kit.kit->0.props@[row.prop].name@, filter)
        }),
    decreases upto,
{
    let most = kit_rows(kit, k, (upto - 1) as nat, filter, multiple);
    if i < most.len() {
        lemma_kit_rows(kit, k, (upto - 1) as nat, filter, multiple, i);
    }
}

/// What the palette remembers from frame to frame.
pub struct PaletteState {
    /// The manifests that were loaded at the last rebuild.
    pub loaded: usize,
    /// Whether the rows need respawning.
    pub dirty: bool,
    /// The text in the search box.
    pub filter: String,
}

impl PaletteState {
    /// The search box changed: a new text makes the rows stale.
    pub fn search(&mut self, typed: &str)
        ensures
            final(self).filter@ == typed@,
            final(self).loaded == old(self).loaded,
            final(self).dirty == (old(self).dirty || typed@ != old(self).filter@),
    {
        if !text::same_text(typed, self.filter.as_str()) {
            self.filter = typed.to_owned();
            self.dirty = true;
        }
    }

    /// A frame begins: tells whether the rows are rebuilt, as the search changed or the number of
    /// loaded manifests did.
    pub fn frame(&mut self, ready: usize) -> (r: bool)
        ensures
            r == (old(self).dirty || ready != old(self).loaded),
            final(self).loaded == ready,
            !final(self).dirty,
            final(self).filter@ == old(self).filter@,
    {
        let stale = self.dirty || ready != self.loaded;
        self.loaded = ready;
        self.dirty = false;
        stale
    }
}

/// Whether a prop is lifted clear of the shelf: it is the one that is selected.
pub fn is_lifted(prop: &KitProp, selected: &Option<KitProp>) -> (r: bool)
    ensures
        r == (match selected {
            Some(s) => s.bsn@ == prop.bsn@,
            None => false,
        }),
{
    match selected {
        Some(s) => text::same_text(s.bsn.as_str(), prop.bsn.as_str()),
        None => false,
    }
}

/// Whether `c` columns are the fewest that make a grid of `n` cells no deeper than wide.
pub open spec fn is_square_side(n: nat, c: nat) -> bool {
    &&& c >= 1
    &&& n <= c * c
    &&& c == 1 || (c - 1) * (c - 1) < n
}

fn square(c: usize) -> (r: u128)
    ensures
        r == c * c,
{
    assert(c * c <= u128::MAX) by (nonlinear_arith)
        requires
            c <= 0xffff_ffff_ffff_ffff,
    ;
    (c as u128) * (c as u128)
}

/// Columns for `n` props: roughly square, so the grid frames well whether the search left three
/// props or three hundred.
pub fn columns_for(n: usize) -> (r: usize)
    ensures
        is_square_side(n as nat, r as nat),
{
    let mut c: usize = 1;
    while square(c) < n as u128
        invariant
            1 <= c,
            c == 1 || (c - 1) * (c - 1) < n,
        decreases n - c,
    {
        assert(c < n) by (nonlinear_arith)
            requires
                1 <= c,
                c * c < n,
        ;
        c = c + 1;
    }
    c
}

/// The rows of a shelf, at least one.
pub open spec fn is_row_count(n: nat, columns: nat, rows: nat) -> bool {
    &&& rows >= 1
    &&& n <= rows * columns
    &&& rows == 1 || (rows - 1) * columns < n
}

/// Rows for `n` props in `columns`.
pub fn rows_for(n: usize, columns: usize) -> (r: usize)
    requires
        columns >= 1,
    ensures
        is_row_count(n as nat, columns as nat, r as nat),
{
    let full: usize = n / columns;
    let rest: usize = n % columns;
    assert(n == full * columns + rest && rest < columns) by (nonlinear_arith)
        requires
            columns >= 1,
            full == n as int / columns as int,
            rest == n as int % columns as int,
    ;
    if rest > 0 {
        assert(full < n) by (nonlinear_arith)
            requires
                n == full * columns + rest,
                rest > 0,
                columns >= 1,
        ;
        assert((full + 1) * columns == full * columns + columns) by (nonlinear_arith);
        full + 1
    } else if full > 0 {
        assert((full - 1) * columns == full * columns - columns) by (nonlinear_arith);
        full
    } else {
        assert(full * columns == 0) by (nonlinear_arith)
            requires
                full == 0,
        ;
        1
    }
}

/// The column and the row of prop `i` on a shelf.
pub fn shelf_cell(i: usize, columns: usize) -> (r: (usize, usize))
    requires
        columns >= 1,
    ensures
        r.0 < columns,
        i == r.1 * columns + r.0,
{
    let cell: (usize, usize) = (i % columns, i / columns);
    assert(i == cell.1 * columns + cell.0 && cell.0 < columns) by (nonlinear_arith)
        requires
            columns >= 1,
            cell.0 == i as int % columns as int,
            cell.1 == i as int / columns as int,
    ;
    cell
}

/// Every prop stands on the shelf: its row is one of the shelf's.
pub proof fn props_fit_the_shelf(n: nat, columns: nat, rows: nat, i: nat, column: nat, row: nat)
    requires
        columns >= 1,
        is_row_count(n, columns, rows),
        i < n,
        column < columns,
        i == row * columns + column,
    ensures
        row < rows,
{
    assert(row < rows) by (nonlinear_arith)
        requires
            row * columns < rows * columns,
            columns >= 1,
    ;
}

/// No two props share a cell of the shelf.
pub proof fn shelf_cells_are_distinct(columns: nat, i: nat, j: nat, a: (nat, nat), b: (nat, nat))
    requires
        i == a.1 * columns + a.0,
        j == b.1 * columns + b.0,
        i != j,
    ensures
        a != b,
{
}

/// A shouted segment before a name is dropped; a name that begins with anything else stays, and so
/// does a shout that nothing follows.
pub proof fn shouts_are_dropped(shout: Seq<char>, rest: Seq<char>)
    requires
        !shout.contains('_'),
        shout.len() > 0,
        rest.len() > 0,
    ensures
        (forall|i: int|
            0 <= i < shout.len() ==> ('A' <= #[trigger] shout[i] <= 'Z' || '0' <= shout[i] <= '9'))
            ==> without_shouts(shout + seq!['_'] + rest) == without_shouts(rest),
        (exists|i: int| 0 <= i < shout.len() && 'a' <= #[trigger] shout[i] <= 'z') ==> without_shouts(
            shout + seq!['_'] + rest,
        ) == shout + seq!['_'] + rest,
        without_shouts(shout) == shout,
        without_shouts(shout + seq!['_']) == shout + seq!['_'],
{
    text::joined_texts_split(shout, '_', rest);
    text::joined_texts_split(shout, '_', Seq::<char>::empty());
    text::whole_text_stays(shout, '_');
    let bare = shout + seq!['_'];
    assert(bare + Seq::<char>::empty() =~= bare);
    if exists|i: int| 0 <= i < shout.len() && 'a' <= #[trigger] shout[i] <= 'z' {
        let i = choose|i: int| 0 <= i < shout.len() && 'a' <= #[trigger] shout[i] <= 'z';
        assert(!('A' <= shout[i] <= 'Z' || '0' <= shout[i] <= '9'));
    }
}

/// Every prop of a shown kit that passes the search has a row, with its own label: its short name,
/// after the kit's name where there is more than one kit.
pub proof fn passing_props_have_rows(
    kits: Seq<PaletteKit>,
    only: Option<Seq<char>>,
    filter: Seq<char>,
    upto: nat,
    k: int,
    p: int,
)
    requires
        upto <= kits.len(),
        0 <= k < upto,
        kits[k].kit is Some,
        only is None || only == Some(kits[k].name@),
        0 <= p < kits[k].kit->0.props@.len(),
        passes(kits[k].kit->0.props@[p].name@, filter),
    ensures
        ({
            let short = without_shouts(kits[k].kit->0.props@[p].name@);
            palette_rows(kits, upto, only, filter).contains(
                (PaletteRowView {
                    kit: k,
                    prop: p,
                    label: if kits.len() > 1 {
                        kits[k].name@ + "/"@ + short
                    } else {
                        short
                    },
                }),
            )
        }),
    decreases upto,
{
    let short = without_shouts(kits[k].kit->0.props@[p].name@);
    let row = PaletteRowView {
        kit: k,
        prop: p,
        label: if kits.len() > 1 {
            kits[k].name@ + "/"@ + short
        } else {
            short
        },
    };
    let less = (upto - 1) as nat;
    let most = palette_rows(kits, less, only, filter);
    let all = palette_rows(kits, upto, only, filter);
    if k < less {
        passing_props_have_rows(kits, only, filter, less, k, p);
        let i = choose|i: int| 0 <= i < most.len() && most[i] == row;
        assert(all[i] == row);
    } else {
        let n = kits[k].kit->0.props@.len();
        lemma_kit_row(kits[k], k, n, filter, kits.len() > 1, p);
        let own = kit_rows(kits[k], k, n, filter, kits.len() > 1);
        let i = choose|i: int| 0 <= i < own.len() && own[i] == row;
        assert(all[most.len() + i] == row);
    }
}

proof fn lemma_kit_row(kit: PaletteKit, k: int, upto: nat, filter: Seq<char>, multiple: bool, p: int)
    requires
        0 <= p < upto,
        passes(kit.kit->0.props@[p].name@, filter),
    ensures
        kit_rows(kit, k, upto, filter, multiple).contains(
            (PaletteRowView {
                kit: k,
                prop: p,
                label: prop_label(kit.name@, kit.kit->0.props@[p].name@, multiple),
            }),
        ),
    decreases upto,
{
    let row = PaletteRowView {
        kit: k,
        prop: p,
        label: prop_label(kit.name@, kit.kit->0.props@[p].name@, multiple),
    };
    let less = (upto - 1) as nat;
    let all = kit_rows(kit, k, upto, filter, multiple);
    let most = kit_rows(kit, k, less, filter, multiple);
    if p < less {
        lemma_kit_row(kit, k, less, filter, multiple, p);
        let i = choose|i: int| 0 <= i < most.len() && most[i] == row;
        assert(all[i] == row);
    } else {
        assert(all[most.len() as int] == row);
    }
}

/// An empty search shows every prop, and one that shows a prop shows it by a text that its short
/// name holds, letter case aside.
pub proof fn searches_look_into_short_names(name: Seq<char>, filter: Seq<char>)
    ensures
        text::lowercased(filter).len() == 0 ==> passes(name, filter),
        passes(name, filter) && text::lowercased(filter).len() > 0 ==> exists|i: int|
            0 <= i && i + text::lowercased(filter).len() <= text::lowercased(without_shouts(name)).len()
                && #[trigger] text::lowercased(without_shouts(name)).subrange(
                i,
                i + text::lowercased(filter).len(),
            ) == text::lowercased(filter),
        passes(name, filter) ==> passes(without_shouts(name), filter),
{
    let (h, n) = (text::lowercased(without_shouts(name)), text::lowercased(filter));
    if passes(name, filter) && n.len() > 0 {
        let i = choose|i: int| text::occurs_at(h, n, i);
        assert(h.subrange(i, i + n.len()) == n);
    }
    if name.len() > 0 {
        short_names_say_something(name);
    }
}

/// The header counts the props of the kits that are shown: all of them, or those that the search
/// left of them.
pub proof fn headers_count_props(
    kits: Seq<PaletteKit>,
    only: Option<Seq<char>>,
    upto: nat,
    shown: nat,
    filter: Seq<char>,
)
    requires
        0 < upto <= kits.len(),
        filter.len() > 0,
    ensures
        kits[upto - 1].kit is None ==> prop_count(kits, upto, only) == prop_count(
            kits,
            (upto - 1) as nat,
            only,
        ),
        kits[upto - 1].kit is Some && only is None ==> prop_count(kits, upto, only) == prop_count(
            kits,
            (upto - 1) as nat,
            only,
        ) + kits[upto - 1].kit->0.props@.len(),
        only matches Some(want) && want != kits[upto - 1].name@ ==> prop_count(kits, upto, only)
            == prop_count(kits, (upto - 1) as nat, only),
        palette_header(upto, filter, shown, prop_count(kits, upto, only)) == text::decimal(shown) + "/"@
            + text::decimal(prop_count(kits, upto, only)) + " props"@,
        palette_header(upto, Seq::<char>::empty(), shown, shown) == text::decimal(shown) + " props in "@
            + text::decimal(upto) + " kit(s)"@,
{
}

/// A row keeps the kit, the prop and the label that it stands for.
pub proof fn rows_keep_their_props(r: PaletteRow)
    ensures
        r@.kit == r.kit,
        r@.prop == r.prop,
        r@.label == r.label@,
{
}

/// A grid has the fewest columns that make it no deeper than wide, and the fewest rows that hold all
/// its props.
pub proof fn grids_are_as_small_as_they_can_be(n: nat, c: nat, rows: nat, d: nat, r: nat)
    requires
        is_square_side(n, c),
        is_row_count(n, c, rows),
    ensures
        n <= c * c,
        1 <= d < c ==> d * d < n,
        n <= rows * c,
        1 <= r < rows ==> r * c < n,
{
    if 1 <= d < c {
        assert(d * d <= (c - 1) * (c - 1)) by (nonlinear_arith)
            requires
                1 <= d <= c - 1,
        ;
    }
    if 1 <= r < rows {
        assert(r * c <= (rows - 1) * c) by (nonlinear_arith)
            requires
                1 <= r <= rows - 1,
                0 <= c,
        ;
    }
}

} // verus!
