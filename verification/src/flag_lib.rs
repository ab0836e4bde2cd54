use crate::color::Color;
use crate::color::is_hex_color;
use crate::color::is_hex_color_exec;
use vstd::prelude::*;

verus! {

/// Placement rectangle of a symbol on the logical canvas.
#[derive(PartialEq, Eq, Structural, Clone, Copy, Debug)]
pub struct Transform {
    pub x: i32,
    pub y: i32,
    pub width: i32,
    pub height: i32,
}

/// A symbol image with its placement rectangles: one for a flag shown alone
/// and one for the left operand of a mix; the right-operand rectangle is
/// derived by mirroring. `mirror` additionally requests a horizontal flip of
/// the image itself in the merged-right context.
#[derive(PartialEq, Eq, Debug)]
pub struct SymbolData {
    pub src: String,
    pub single: Transform,
    pub merged_left: Transform,
    pub mirror: bool,
}

/// Mathematical model of a symbol.
pub ghost struct SymbolModel {
    pub src: Seq<char>,
    pub single: Transform,
    pub merged_left: Transform,
    pub mirror: bool,
}

impl View for SymbolData {
    type V = SymbolModel;

    open spec fn view(&self) -> SymbolModel {
        SymbolModel {
            src: self.src@,
            single: self.single,
            merged_left: self.merged_left,
            mirror: self.mirror,
        }
    }
}

impl Clone for SymbolData {
    fn clone(&self) -> (res: Self)
        ensures
            res@ == self@,
    {
        SymbolData {
            src: self.src.clone(),
            single: self.single,
            merged_left: self.merged_left,
            mirror: self.mirror,
        }
    }
}

impl SymbolData {
    /// Placement rectangle for the merged-right context: the merged-left
    /// rectangle mirrored horizontally around a canvas of the given width.
    pub fn get_merged_right(&self, width: i32) -> (t: Transform)
        requires
            i32::MIN <= width - self.merged_left.x <= i32::MAX,
            i32::MIN <= width - self.merged_left.x - self.merged_left.width <= i32::MAX,
        ensures
            t.x == width - self.merged_left.x - self.merged_left.width,
            t.y == self.merged_left.y,
            t.width == self.merged_left.width,
            t.height == self.merged_left.height,
    {
        let transform = &self.merged_left;
        Transform {
            x: width - transform.x - transform.width,
            y: transform.y,
            width: transform.width,
            height: transform.height,
        }
    }
}

/// The placement context of a symbol: on a flag shown alone, or on the left
/// or right half of a mixed flag.
#[derive(PartialEq, Eq, Structural, Clone, Copy, Debug)]
pub enum Position {
    Single,
    MergedLeft,
    MergedRight,
}

/// Everything that can go wrong when building or mixing a flag record.
#[derive(PartialEq, Eq, Structural, Clone, Copy, Debug)]
pub enum FlagError {
    /// A catalog entry declared a color that is not `#RRGGBB`.
    InvalidColorFormat,
    /// A record with no stripes was given where stripes are required.
    EmptyFlag,
}

/// One flag: its names, its category tags, its stripes (each a sequence of
/// gradient-stop colors; exactly one color per stripe until the record is
/// mixed), and its symbol placements. Immutable once constructed.
#[derive(PartialEq, Eq, Debug)]
pub struct FlagData {
    pub full_name: String,
    pub name: String,
    pub categories: Vec<String>,
    pub lines: Vec<Vec<Color>>,
    pub symbols: Vec<(SymbolData, Position)>,
}

/// Mathematical model of a flag record.
pub ghost struct FlagModel {
    pub full_name: Seq<char>,
    pub name: Seq<char>,
    pub categories: Seq<Seq<char>>,
    pub lines: Seq<Seq<Seq<char>>>,
    pub symbols: Seq<(SymbolModel, Position)>,
}

/// The model of a symbol-placement list.
pub open spec fn symbols_view(s: Seq<(SymbolData, Position)>) -> Seq<(SymbolModel, Position)> {
    Seq::new(s.len(), |i: int| (s[i].0@, s[i].1))
}

impl View for FlagData {
    type V = FlagModel;

    open spec fn view(&self) -> FlagModel {
        FlagModel {
            full_name: self.full_name@,
            name: self.name@,
            categories: self.categories.deep_view(),
            lines: self.lines.deep_view(),
            symbols: symbols_view(self.symbols@),
        }
    }
}

/// The invariant of a well-formed record: at least one stripe, at least one
/// color per stripe, every color a well-formed hex string, and no category
/// listed twice.
pub open spec fn flag_wf(m: FlagModel) -> bool {
    &&& m.lines.len() >= 1
    &&& forall|i: int| 0 <= i < m.lines.len() ==> #[trigger] m.lines[i].len() >= 1
    &&& forall|i: int, j: int|
        0 <= i < m.lines.len() && 0 <= j < m.lines[i].len() ==> is_hex_color(
            #[trigger] m.lines[i][j],
        )
    &&& forall|i: int, j: int|
        0 <= i < j < m.categories.len() ==> #[trigger] m.categories[i] != #[trigger] m.categories[j]
}

/// The raw shape of one catalog entry, as the loader hands it over: one hex
/// string per stripe, a plain tag list, and at most one symbol.
#[derive(PartialEq, Eq, Debug)]
pub struct FlagDataJSON {
    pub full_name: String,
    pub name: String,
    pub lines: Vec<String>,
    pub categories: Vec<String>,
    pub symbol: Option<SymbolData>,
}

/// The tag list of a catalog entry with duplicates dropped, keeping the
/// first occurrence of each tag.
pub open spec fn dedup_seq(s: Seq<Seq<char>>) -> Seq<Seq<char>>
    decreases s.len(),
{
    if s.len() == 0 {
        Seq::empty()
    } else {
        let rest = dedup_seq(s.drop_last());
        if s.drop_last().contains(s.last()) {
            rest
        } else {
            rest.push(s.last())
        }
    }
}

/// The stripe model of a catalog entry: one stripe per line, each holding
/// exactly that line's color.
pub open spec fn lines_from_source(lines: Seq<Seq<char>>) -> Seq<Seq<Seq<char>>> {
    Seq::new(lines.len(), |i: int| seq![lines[i]])
}

/// The symbol model of a catalog entry.
pub open spec fn symbols_from_source(symbol: Option<SymbolData>) -> Seq<(SymbolModel, Position)> {
    match symbol {
        Some(sym) => seq![(sym@, Position::Single)],
        None => Seq::empty(),
    }
}

fn contains_string_upto(v: &Vec<String>, k: usize, x: &String) -> (found: bool)
    requires
        k <= v@.len(),
    ensures
        found == v.deep_view().take(k as int).contains(x@),
{
    let mut j: usize = 0;
    while j < k
        invariant
            0 <= j <= k <= v@.len(),
            forall|t: int| 0 <= t < j ==> v.deep_view()[t] != x@,
        decreases k - j,
    {
        if v[j].eq(x) {
            proof {
                assert(v.deep_view().take(k as int)[j as int] == x@);
            }
            return true;
        }
        j = j + 1;
    }
    proof {
        assert forall|t: int| 0 <= t < k implies v.deep_view().take(k as int)[t] != x@ by {
            assert(v.deep_view().take(k as int)[t] == v.deep_view()[t]);
        }
    }
    false
}

/// Copy a tag list, dropping duplicates and keeping first occurrences.
fn dedup_strings(v: &Vec<String>) -> (res: Vec<String>)
    ensures
        res.deep_view() == dedup_seq(v.deep_view()),
{
    let mut res: Vec<String> = Vec::new();
    let mut i: usize = 0;
    while i < v.len()
        invariant
            0 <= i <= v@.len(),
            res.deep_view() == dedup_seq(v.deep_view().take(i as int)),
        decreases v@.len() - i,
    {
        proof {
            assert(v.deep_view().take(i as int + 1).drop_last() =~= v.deep_view().take(i as int));
            assert(v.deep_view().take(i as int + 1).last() == v.deep_view()[i as int]);
        }
        if !contains_string_upto(v, i, &v[i]) {
            res.push(v[i].clone());
            proof {
                assert(res.deep_view() =~= dedup_seq(v.deep_view().take(i as int)).push(
                    v.deep_view()[i as int],
                ));
            }
        }
        i = i + 1;
    }
    proof {
        assert(v.deep_view().take(v@.len() as int) =~= v.deep_view());
    }
    res
}

impl FlagData {
    /// Build one flag record from a catalog entry: one stripe per source
    /// line, tags deduplicated into a set-like list, and the symbol, if any,
    /// placed in the single-flag context. Entries with no stripes are
    /// rejected with `EmptyFlag`; entries with a malformed color are
    /// rejected with `InvalidColorFormat`.
    pub fn from_json(json: &FlagDataJSON) -> (res: Result<FlagData, FlagError>)
        ensures
            match res {
                Ok(f) => {
                    &&& json.lines@.len() >= 1
                    &&& forall|i: int|
                        0 <= i < json.lines@.len() ==> is_hex_color(
                            #[trigger] json.lines.deep_view()[i],
                        )
                    &&& f@ == (FlagModel {
                        full_name: json.full_name@,
                        name: json.name@,
                        categories: dedup_seq(json.categories.deep_view()),
                        lines: lines_from_source(json.lines.deep_view()),
                        symbols: symbols_from_source(json.symbol),
                    })
                    &&& flag_wf(f@)
                },
                Err(FlagError::EmptyFlag) => json.lines@.len() == 0,
                Err(FlagError::InvalidColorFormat) => {
                    &&& json.lines@.len() >= 1
                    &&& exists|i: int|
                        0 <= i < json.lines@.len() && !is_hex_color(
                            #[trigger] json.lines.deep_view()[i],
                        )
                },
            },
    {
        if json.lines.len() == 0 {
            return Err(FlagError::EmptyFlag);
        }
        let mut lines: Vec<Vec<Color>> = Vec::new();
        let mut i: usize = 0;
        while i < json.lines.len()
            invariant
                0 <= i <= json.lines@.len(),
                lines.deep_view() == lines_from_source(json.lines.deep_view()).take(i as int),
                forall|t: int|
                    0 <= t < i ==> is_hex_color(#[trigger] json.lines.deep_view()[t]),
            decreases json.lines@.len() - i,
        {
            if !is_hex_color_exec(json.lines[i].as_str()) {
                proof {
                    assert(!is_hex_color(json.lines.deep_view()[i as int]));
                }
                return Err(FlagError::InvalidColorFormat);
            }
            let mut stripe: Vec<Color> = Vec::new();
            stripe.push(Color(json.lines[i].clone()));
            proof {
                assert(stripe.deep_view() =~~= seq![json.lines.deep_view()[i as int]]);
                assert(lines.deep_view().len() == i);
                assert(lines@.len() == i);
            }
            lines.push(stripe);
            proof {
                assert(lines.deep_view()[i as int] == stripe.deep_view());
                assert(lines.deep_view() =~~= lines_from_source(json.lines.deep_view()).take(
                    i as int + 1,
                ));
            }
            i = i + 1;
        }
        let categories = dedup_strings(&json.categories);
        let symbols: Vec<(SymbolData, Position)> = match &json.symbol {
            Some(sym) => {
                let mut v: Vec<(SymbolData, Position)> = Vec::new();
                v.push((sym.clone(), Position::Single));
                v
            },
            None => Vec::new(),
        };
        let f = FlagData {
            full_name: json.full_name.clone(),
            name: json.name.clone(),
            categories,
            lines,
            symbols,
        };
        proof {
            assert(lines_from_source(json.lines.deep_view()).take(json.lines@.len() as int)
                =~~= lines_from_source(json.lines.deep_view()));
            assert(f@.symbols =~~= symbols_from_source(json.symbol));
            lemma_dedup_unique(json.categories.deep_view());
        }
        Ok(f)
    }
}

/// A stripe list with its middle stripe duplicated: a copy of the middle
/// stripe is inserted immediately after the original middle index.
pub open spec fn dup_middle(s: Seq<Seq<Seq<char>>>) -> Seq<Seq<Seq<char>>> {
    if s.len() == 0 {
        s
    } else {
        let mid = s.len() as int / 2;
        s.subrange(0, mid + 1) + s.subrange(mid, s.len() as int)
    }
}

/// A stripe list with every stripe repeated `k` consecutive times.
pub open spec fn repeat_each(s: Seq<Seq<Seq<char>>>, k: int) -> Seq<Seq<Seq<char>>> {
    Seq::new((s.len() * k) as nat, |i: int| s[i / k])
}

fn copy_stripe(v: &Vec<Color>) -> (res: Vec<Color>)
    ensures
        res@ == v@,
{
    let mut res: Vec<Color> = Vec::new();
    let mut j: usize = 0;
    while j < v.len()
        invariant
            0 <= j <= v@.len(),
            res@ =~= v@.take(j as int),
        decreases v@.len() - j,
    {
        res.push(v[j].clone());
        j = j + 1;
    }
    proof {
        assert(v@.take(v@.len() as int) =~= v@);
    }
    res
}

fn copy_strings(v: &Vec<String>) -> (res: Vec<String>)
    ensures
        res.deep_view() == v.deep_view(),
        res@.len() == v@.len(),
{
    let mut res: Vec<String> = Vec::new();
    let mut j: usize = 0;
    while j < v.len()
        invariant
            0 <= j <= v@.len(),
            res@.len() == j,
            forall|t: int| 0 <= t < j ==> res.deep_view()[t] == v.deep_view()[t],
        decreases v@.len() - j,
    {
        res.push(v[j].clone());
        j = j + 1;
    }
    proof {
        assert(res.deep_view() =~= v.deep_view());
    }
    res
}

fn copy_symbols(v: &Vec<(SymbolData, Position)>) -> (res: Vec<(SymbolData, Position)>)
    ensures
        symbols_view(res@) == symbols_view(v@),
{
    let mut res: Vec<(SymbolData, Position)> = Vec::new();
    let mut j: usize = 0;
    while j < v.len()
        invariant
            0 <= j <= v@.len(),
            res@.len() == j,
            forall|t: int| 0 <= t < j ==> symbols_view(res@)[t] == symbols_view(v@)[t],
        decreases v@.len() - j,
    {
        let entry = &v[j];
        res.push((entry.0.clone(), entry.1));
        j = j + 1;
    }
    proof {
        assert(symbols_view(res@) =~= symbols_view(v@));
    }
    res
}

fn copy_lines(v: &Vec<Vec<Color>>) -> (res: Vec<Vec<Color>>)
    ensures
        res.deep_view() == v.deep_view(),
        res@.len() == v@.len(),
{
    let mut res: Vec<Vec<Color>> = Vec::new();
    let mut j: usize = 0;
    while j < v.len()
        invariant
            0 <= j <= v@.len(),
            res@.len() == j,
            forall|t: int| 0 <= t < j ==> res.deep_view()[t] == v.deep_view()[t],
        decreases v@.len() - j,
    {
        res.push(copy_stripe(&v[j]));
        proof {
            assert(res.deep_view()[j as int] =~= v.deep_view()[j as int]);
        }
        j = j + 1;
    }
    proof {
        assert(res.deep_view() =~= v.deep_view());
    }
    res
}

impl Clone for FlagData {
    fn clone(&self) -> (res: Self)
        ensures
            res@ == self@,
    {
        let res = FlagData {
            full_name: self.full_name.clone(),
            name: self.name.clone(),
            categories: copy_strings(&self.categories),
            lines: copy_lines(&self.lines),
            symbols: copy_symbols(&self.symbols),
        };
        res
    }
}

impl FlagData {
    /// The same flag with its middle stripe duplicated, used to bump an odd
    /// stripe count to an even one without biasing the merge to one side.
    pub fn duplicate_middle(flag: &FlagData) -> (res: FlagData)
        requires
            flag@.lines.len() < usize::MAX,
        ensures
            res@ == (FlagModel { lines: dup_middle(flag@.lines), ..flag@ }),
    {
        if flag.lines.len() == 0 {
            return flag.clone();
        }
        let len = flag.lines.len();
        let mid = len / 2;
        let mut lines: Vec<Vec<Color>> = Vec::new();
        let mut k: usize = 0;
        while k < len + 1
            invariant
                0 <= k <= len + 1,
                len == flag@.lines.len(),
                1 <= len < usize::MAX,
                mid == len as int / 2,
                lines@.len() == k,
                forall|t: int|
                    0 <= t < k ==> lines.deep_view()[t] == flag@.lines[if t <= mid as int {
                        t
                    } else {
                        t - 1
                    }],
            decreases len + 1 - k,
        {
            let src = if k <= mid {
                k
            } else {
                k - 1
            };
            let ghost pre = lines.deep_view();
            lines.push(copy_stripe(&flag.lines[src]));
            proof {
                assert(lines.deep_view()[k as int] =~= flag@.lines[src as int]);
                assert forall|t: int| 0 <= t < k implies lines.deep_view()[t] == pre[t] by {
                    assert(lines.deep_view()[t] == lines@[t].deep_view());
                }
                assert forall|t: int|
                    0 <= t < k + 1 implies lines.deep_view()[t] == flag@.lines[if t <= mid as int {
                    t
                } else {
                    t - 1
                }] by {
                    if t < k {
                        assert(lines.deep_view()[t] == pre[t]);
                    } else {
                        assert(lines.deep_view()[t] == flag@.lines[src as int]);
                    }
                }
            }
            k = k + 1;
        }
        let res = FlagData {
            full_name: flag.full_name.clone(),
            name: flag.name.clone(),
            categories: copy_strings(&flag.categories),
            lines,
            symbols: copy_symbols(&flag.symbols),
        };
        proof {
            assert(res@.lines =~= dup_middle(flag@.lines));
        }
        res
    }

    /// The same flag with every stripe repeated `factor` consecutive times.
    pub fn multiply(flag: &FlagData, factor: usize) -> (res: FlagData)
        ensures
            res@ == (FlagModel { lines: repeat_each(flag@.lines, factor as int), ..flag@ }),
    {
        let mut lines: Vec<Vec<Color>> = Vec::new();
        let mut i: usize = 0;
        while i < flag.lines.len()
            invariant
                0 <= i <= flag@.lines.len(),
                lines@.len() == i * factor,
                forall|t: int|
                    0 <= t < lines@.len() ==> lines.deep_view()[t] == flag@.lines[t / factor as int],
            decreases flag@.lines.len() - i,
        {
            let mut j: usize = 0;
            while j < factor
                invariant
                    0 <= j <= factor,
                    0 <= i < flag@.lines.len(),
                    lines@.len() == i * factor + j,
                    forall|t: int|
                        0 <= t < lines@.len() ==> lines.deep_view()[t] == flag@.lines[t
                            / factor as int],
                decreases factor - j,
            {
                let ghost pre = lines.deep_view();
                let ghost prelen = lines@.len();
                lines.push(copy_stripe(&flag.lines[i]));
                proof {
                    vstd::arithmetic::div_mod::lemma_fundamental_div_mod_converse(
                        i as int * factor as int + j as int,
                        factor as int,
                        i as int,
                        j as int,
                    );
                    assert(lines.deep_view()[prelen as int] =~= flag@.lines[i as int]);
                    assert forall|t: int| 0 <= t < prelen implies lines.deep_view()[t] == pre[t] by {
                        assert(lines.deep_view()[t] == lines@[t].deep_view());
                    }
                    assert forall|t: int|
                        0 <= t < lines@.len() implies lines.deep_view()[t] == flag@.lines[t
                        / factor as int] by {
                        if t < prelen {
                            assert(lines.deep_view()[t] == pre[t]);
                        } else {
                            assert(t == prelen);
                            assert(lines.deep_view()[t] == flag@.lines[i as int]);
                        }
                    }
                }
                j = j + 1;
            }
            proof {
                assert(i as int * factor as int + factor as int == (i as int + 1) * factor as int)
                    by (nonlinear_arith);
            }
            i = i + 1;
        }
        let res = FlagData {
            full_name: flag.full_name.clone(),
            name: flag.name.clone(),
            categories: copy_strings(&flag.categories),
            lines,
            symbols: copy_symbols(&flag.symbols),
        };
        proof {
            assert(res@.lines =~= repeat_each(flag@.lines, factor as int));
        }
        res
    }
}

/// The parity-normalized pair of stripe counts: if exactly one count is
/// odd, that flag's middle stripe is duplicated, so that the later band
/// alignment stays symmetric.
pub open spec fn parity_adjust(len1: int, len2: int) -> (int, int) {
    if len1 % 2 == 1 && len2 % 2 == 0 {
        (len1 + 1, len2)
    } else if len1 % 2 == 0 && len2 % 2 == 1 {
        (len1, len2 + 1)
    } else {
        (len1, len2)
    }
}

/// Whether `a` is a whole multiple of `b` (with zero a multiple only of
/// zero).
pub open spec fn is_multiple(a: int, b: int) -> bool {
    if b == 0 {
        a == 0
    } else {
        a % b == 0
    }
}

/// Whether two flags mix without looking lopsided: after parity
/// normalization, one stripe count evenly divides the other.
pub open spec fn spec_compatible(len1: int, len2: int) -> bool {
    let adj = parity_adjust(len1, len2);
    is_multiple(adj.1, adj.0) || is_multiple(adj.0, adj.1)
}

/// `l` is the least common multiple of `a` and `b` (for positive `a`, `b`).
pub open spec fn is_lcm(l: int, a: int, b: int) -> bool {
    &&& 1 <= l
    &&& l % a == 0
    &&& l % b == 0
    &&& forall|m: int| 1 <= m < l ==> !(#[trigger] (m % a) == 0 && m % b == 0)
}

/// The first flag's stripe list after parity normalization of the pair.
pub open spec fn adjusted_lines1(a: FlagModel, b: FlagModel) -> Seq<Seq<Seq<char>>> {
    if a.lines.len() % 2 == 1 && b.lines.len() % 2 == 0 {
        dup_middle(a.lines)
    } else {
        a.lines
    }
}

/// The second flag's stripe list after parity normalization of the pair.
pub open spec fn adjusted_lines2(a: FlagModel, b: FlagModel) -> Seq<Seq<Seq<char>>> {
    if a.lines.len() % 2 == 0 && b.lines.len() % 2 == 1 {
        dup_middle(b.lines)
    } else {
        b.lines
    }
}

/// The merged stripe bands: both lists are stretched to length `l` by
/// repeating each stripe in a contiguous block, and the color sequences at
/// each index are concatenated, first flag's colors first.
pub open spec fn band_merge(
    la: Seq<Seq<Seq<char>>>,
    lb: Seq<Seq<Seq<char>>>,
    l: int,
) -> Seq<Seq<Seq<char>>> {
    Seq::new(l as nat, |i: int| la[i / (l / la.len() as int)] + lb[i / (l / lb.len() as int)])
}

/// The tags of `b` that `a` does not already hold, in order.
pub open spec fn new_cats(a: Seq<Seq<char>>, b: Seq<Seq<char>>) -> Seq<Seq<char>>
    decreases b.len(),
{
    if b.len() == 0 {
        Seq::empty()
    } else {
        let rest = new_cats(a, b.drop_last());
        if a.contains(b.last()) {
            rest
        } else {
            rest.push(b.last())
        }
    }
}

/// The set union of two tag lists: `a`'s tags, then those of `b` not
/// already present.
pub open spec fn seq_union(a: Seq<Seq<char>>, b: Seq<Seq<char>>) -> Seq<Seq<char>> {
    a + new_cats(a, b)
}

/// A symbol list with every placement context replaced by `pos`.
pub open spec fn retag(s: Seq<(SymbolModel, Position)>, pos: Position) -> Seq<
    (SymbolModel, Position),
> {
    Seq::new(s.len(), |i: int| (s[i].0, pos))
}

/// Compatibility is symmetric in its two flags.
pub proof fn lemma_compatible_symmetric(len1: int, len2: int)
    ensures
        spec_compatible(len1, len2) == spec_compatible(len2, len1),
{
}

fn contains_string(v: &Vec<String>, x: &String) -> (found: bool)
    ensures
        found == v.deep_view().contains(x@),
{
    let found = contains_string_upto(v, v.len(), x);
    proof {
        assert(v.deep_view().take(v@.len() as int) =~= v.deep_view());
    }
    found
}

/// The set union of two tag lists: all of the first, then every tag of the
/// second that the first does not hold.
fn union_cats(a: &Vec<String>, b: &Vec<String>) -> (res: Vec<String>)
    ensures
        res.deep_view() == seq_union(a.deep_view(), b.deep_view()),
{
    let mut res = copy_strings(a);
    let ghost av = a.deep_view();
    let mut i: usize = 0;
    while i < b.len()
        invariant
            0 <= i <= b@.len(),
            av == a.deep_view(),
            res.deep_view() == av + new_cats(av, b.deep_view().take(i as int)),
        decreases b@.len() - i,
    {
        proof {
            assert(b.deep_view().take(i as int + 1).drop_last() =~= b.deep_view().take(i as int));
            assert(b.deep_view().take(i as int + 1).last() == b.deep_view()[i as int]);
        }
        if !contains_string(a, &b[i]) {
            let ghost pre = res.deep_view();
            res.push(b[i].clone());
            proof {
                assert(res.deep_view() =~= pre.push(b.deep_view()[i as int]));
            }
        }
        i = i + 1;
    }
    proof {
        assert(b.deep_view().take(b@.len() as int) =~= b.deep_view());
    }
    res
}

/// One stripe's color list followed by another's, as one gradient band.
fn concat_stripe(a: &Vec<Color>, b: &Vec<Color>) -> (res: Vec<Color>)
    ensures
        res.deep_view() == a.deep_view() + b.deep_view(),
{
    let mut res = copy_stripe(a);
    let mut j: usize = 0;
    while j < b.len()
        invariant
            0 <= j <= b@.len(),
            res@ =~= a@ + b@.take(j as int),
        decreases b@.len() - j,
    {
        res.push(b[j].clone());
        j = j + 1;
    }
    proof {
        assert(a@ + b@.take(b@.len() as int) =~= a@ + b@);
        assert(res.deep_view() =~= a.deep_view() + b.deep_view());
    }
    res
}

/// A copy of a symbol list with every placement context set to `pos`.
fn retag_symbols(v: &Vec<(SymbolData, Position)>, pos: Position) -> (res: Vec<
    (SymbolData, Position),
>)
    ensures
        symbols_view(res@) == retag(symbols_view(v@), pos),
{
    let mut res: Vec<(SymbolData, Position)> = Vec::new();
    let mut j: usize = 0;
    while j < v.len()
        invariant
            0 <= j <= v@.len(),
            res@.len() == j,
            forall|t: int| 0 <= t < j ==> symbols_view(res@)[t] == (symbols_view(v@)[t].0, pos),
        decreases v@.len() - j,
    {
        let entry = &v[j];
        let ghost pre = res@;
        res.push((entry.0.clone(), pos));
        proof {
            assert forall|t: int|
                0 <= t < j + 1 implies symbols_view(res@)[t] == (symbols_view(v@)[t].0, pos) by {
                if t < j {
                    assert(res@[t] == pre[t]);
                    assert(symbols_view(res@)[t] == symbols_view(pre)[t]);
                    assert(symbols_view(pre)[t] == (symbols_view(v@)[t].0, pos));
                } else {
                    assert(symbols_view(res@)[t] == (res@[t].0@, res@[t].1));
                }
            }
        }
        j = j + 1;
    }
    proof {
        assert(symbols_view(res@) =~= retag(symbols_view(v@), pos));
    }
    res
}

/// Both short names joined with one space.
fn join_names(a: &String, b: &String) -> (res: String)
    ensures
        res@ == a@ + seq![' '] + b@,
{
    let mut res = a.clone();
    proof {
        reveal_strlit(" ");
    }
    res.append(" ");
    res.append(b.as_str());
    proof {
        assert(res@ =~= a@ + seq![' '] + b@);
    }
    res
}

/// Relies on num_integer::lcm: for positive operands it returns the least
/// common multiple, computed as `a * (b / gcd(a, b))`; the precondition
/// keeps that product within `usize`, so the call cannot overflow.
#[verifier::external_body]
fn lcm_usize(a: usize, b: usize) -> (l: usize)
    requires
        1 <= a,
        1 <= b,
        a * b <= usize::MAX,
    ensures
        is_lcm(l as int, a as int, b as int),
{
    num_integer::lcm(a, b)
}

/// Every tag that the union adds from the second list is a tag of the
/// second list that the first does not hold.
proof fn lemma_new_cats_sub(a: Seq<Seq<char>>, b: Seq<Seq<char>>)
    ensures
        forall|i: int|
            0 <= i < new_cats(a, b).len() ==> b.contains(#[trigger] new_cats(a, b)[i])
                && !a.contains(new_cats(a, b)[i]),
    decreases b.len(),
{
    if b.len() > 0 {
        lemma_new_cats_sub(a, b.drop_last());
        let rest = new_cats(a, b.drop_last());
        assert forall|i: int|
            0 <= i < new_cats(a, b).len() implies b.contains(#[trigger] new_cats(a, b)[i])
            && !a.contains(new_cats(a, b)[i]) by {
            if i < rest.len() {
                assert(new_cats(a, b)[i] == rest[i]);
                assert(b.drop_last().contains(rest[i]));
                let w = choose|w: int| 0 <= w < b.drop_last().len() && b.drop_last()[w] == rest[i];
                assert(b[w] == rest[i]);
            } else {
                assert(new_cats(a, b)[i] == b.last());
                assert(b[b.len() - 1] == b.last());
            }
        }
    }
}

/// If the second list holds no tag twice, neither does what the union adds
/// from it.
proof fn lemma_new_cats_unique(a: Seq<Seq<char>>, b: Seq<Seq<char>>)
    requires
        forall|i: int, j: int| 0 <= i < j < b.len() ==> #[trigger] b[i] != #[trigger] b[j],
    ensures
        forall|i: int, j: int|
            0 <= i < j < new_cats(a, b).len() ==> #[trigger] new_cats(a, b)[i]
                != #[trigger] new_cats(a, b)[j],
    decreases b.len(),
{
    if b.len() > 0 {
        assert forall|i: int, j: int|
            0 <= i < j < b.drop_last().len() implies #[trigger] b.drop_last()[i]
            != #[trigger] b.drop_last()[j] by {
            assert(b[i] == b.drop_last()[i] && b[j] == b.drop_last()[j]);
        }
        lemma_new_cats_unique(a, b.drop_last());
        lemma_new_cats_sub(a, b.drop_last());
        let rest = new_cats(a, b.drop_last());
        if !a.contains(b.last()) {
            assert forall|i: int, j: int|
                0 <= i < j < new_cats(a, b).len() implies #[trigger] new_cats(a, b)[i]
                != #[trigger] new_cats(a, b)[j] by {
                if j == new_cats(a, b).len() - 1 {
                    assert(new_cats(a, b)[j] == b.last());
                    assert(new_cats(a, b)[i] == rest[i]);
                    assert(b.drop_last().contains(rest[i]));
                    let w = choose|w: int|
                        0 <= w < b.drop_last().len() && b.drop_last()[w] == rest[i];
                    assert(b[w] == rest[i]);
                    assert(b[b.len() - 1] == b.last());
                    if rest[i] == b.last() {
                        assert(b[w] == b[b.len() - 1]);
                    }
                } else {
                    assert(new_cats(a, b)[i] == rest[i] && new_cats(a, b)[j] == rest[j]);
                }
            }
        }
    }
}

/// The set union of two duplicate-free tag lists is duplicate-free.
proof fn lemma_union_unique(a: Seq<Seq<char>>, b: Seq<Seq<char>>)
    requires
        forall|i: int, j: int| 0 <= i < j < a.len() ==> #[trigger] a[i] != #[trigger] a[j],
        forall|i: int, j: int| 0 <= i < j < b.len() ==> #[trigger] b[i] != #[trigger] b[j],
    ensures
        forall|i: int, j: int|
            0 <= i < j < seq_union(a, b).len() ==> #[trigger] seq_union(a, b)[i]
                != #[trigger] seq_union(a, b)[j],
{
    lemma_new_cats_sub(a, b);
    lemma_new_cats_unique(a, b);
    let u = seq_union(a, b);
    assert forall|i: int, j: int| 0 <= i < j < u.len() implies #[trigger] u[i] != #[trigger] u[j] by {
        if j < a.len() {
            assert(u[i] == a[i] && u[j] == a[j]);
        } else if i >= a.len() {
            assert(u[i] == new_cats(a, b)[i - a.len()] && u[j] == new_cats(a, b)[j - a.len()]);
        } else {
            assert(u[i] == a[i] && u[j] == new_cats(a, b)[j - a.len()]);
            assert(!a.contains(new_cats(a, b)[j - a.len()]));
            if u[i] == u[j] {
                assert(a.contains(new_cats(a, b)[j - a.len()]));
            }
        }
    }
}

/// Duplicating the middle stripe keeps every stripe well-formed.
proof fn lemma_dup_middle_wf(s: Seq<Seq<Seq<char>>>)
    requires
        s.len() >= 1,
        forall|i: int| 0 <= i < s.len() ==> #[trigger] s[i].len() >= 1,
        forall|i: int, j: int|
            0 <= i < s.len() && 0 <= j < s[i].len() ==> is_hex_color(#[trigger] s[i][j]),
    ensures
        dup_middle(s).len() == s.len() + 1,
        forall|i: int| 0 <= i < dup_middle(s).len() ==> #[trigger] dup_middle(s)[i].len() >= 1,
        forall|i: int, j: int|
            0 <= i < dup_middle(s).len() && 0 <= j < dup_middle(s)[i].len() ==> is_hex_color(
                #[trigger] dup_middle(s)[i][j],
            ),
{
    let mid = s.len() as int / 2;
    assert forall|i: int| 0 <= i < dup_middle(s).len() implies #[trigger] dup_middle(s)[i].len()
        >= 1 by {
        assert(dup_middle(s)[i] == if i <= mid {
            s[i]
        } else {
            s[i - 1]
        });
    }
    assert forall|i: int, j: int|
        0 <= i < dup_middle(s).len() && 0 <= j < dup_middle(s)[i].len() implies is_hex_color(
        #[trigger] dup_middle(s)[i][j],
    ) by {
        assert(dup_middle(s)[i] == if i <= mid {
            s[i]
        } else {
            s[i - 1]
        });
    }
}

/// Deduplication does not change which tags are present.
proof fn lemma_dedup_contains(s: Seq<Seq<char>>, x: Seq<char>)
    ensures
        dedup_seq(s).contains(x) == s.contains(x),
    decreases s.len(),
{
    if s.len() > 0 {
        lemma_dedup_contains(s.drop_last(), x);
        let rest = dedup_seq(s.drop_last());
        if s.contains(x) {
            let w = choose|w: int| 0 <= w < s.len() && s[w] == x;
            if w < s.len() - 1 {
                assert(s.drop_last()[w] == x);
                assert(s.drop_last().contains(x));
                assert(rest.contains(x));
                let w2 = choose|w2: int| 0 <= w2 < rest.len() && rest[w2] == x;
                if !s.drop_last().contains(s.last()) {
                    assert(rest.push(s.last())[w2] == x);
                }
            } else {
                assert(x == s.last());
                if s.drop_last().contains(x) {
                    assert(rest.contains(x));
                } else {
                    assert(rest.push(s.last()).last() == x);
                }
            }
            assert(dedup_seq(s).contains(x));
        } else {
            assert(!s.drop_last().contains(x)) by {
                if s.drop_last().contains(x) {
                    let w = choose|w: int| 0 <= w < s.drop_last().len() && s.drop_last()[w] == x;
                    assert(s[w] == x);
                }
            }
            assert(!rest.contains(x));
            if !s.drop_last().contains(s.last()) {
                assert(s[s.len() - 1] == s.last());
                assert(s.contains(s.last()));
                assert(x != s.last());
                if dedup_seq(s).contains(x) {
                    let w = choose|w: int| 0 <= w < dedup_seq(s).len() && dedup_seq(s)[w] == x;
                    assert(rest.push(s.last())[w] == x);
                    assert(rest[w] == x);
                }
            }
        }
    }
}

/// Deduplication leaves no tag listed twice.
proof fn lemma_dedup_unique(s: Seq<Seq<char>>)
    ensures
        forall|i: int, j: int|
            0 <= i < j < dedup_seq(s).len() ==> #[trigger] dedup_seq(s)[i] != #[trigger] dedup_seq(
                s,
            )[j],
    decreases s.len(),
{
    if s.len() > 0 {
        lemma_dedup_unique(s.drop_last());
        let rest = dedup_seq(s.drop_last());
        if !s.drop_last().contains(s.last()) {
            lemma_dedup_contains(s.drop_last(), s.last());
            assert(!rest.contains(s.last()));
            assert forall|i: int, j: int|
                0 <= i < j < dedup_seq(s).len() implies #[trigger] dedup_seq(s)[i]
                != #[trigger] dedup_seq(s)[j] by {
                if j == dedup_seq(s).len() - 1 {
                    assert(dedup_seq(s)[j] == s.last());
                    assert(rest[i] == dedup_seq(s)[i]);
                    if dedup_seq(s)[i] == s.last() {
                        assert(rest.contains(s.last()));
                    }
                } else {
                    assert(rest[i] == dedup_seq(s)[i] && rest[j] == dedup_seq(s)[j]);
                }
            }
        }
    }
}

impl FlagData {
    /// The deterministic visual mix of two flags. Two records with the same
    /// short name mix to the first one unchanged. Otherwise the stripe
    /// counts are parity-normalized, both stripe lists are stretched to
    /// their least common multiple, and the color sequences are merged
    /// index by index into gradient bands; the full name collapses when
    /// equal, the short names always join, the categories take their set
    /// union, and the symbols are retagged left and right.
    pub fn mix(flag1: &FlagData, flag2: &FlagData) -> (res: Result<FlagData, FlagError>)
        requires
            (flag1@.lines.len() + 1) * (flag2@.lines.len() + 1) <= usize::MAX,
        ensures
            res is Ok <==> (flag1@.name == flag2@.name || (flag1@.lines.len() >= 1
                && flag2@.lines.len() >= 1)),
            match res {
                Ok(m) => {
                    &&& (flag1@.name == flag2@.name ==> m@ == flag1@)
                    &&& (flag1@.name != flag2@.name ==> {
                        let la = adjusted_lines1(flag1@, flag2@);
                        let lb = adjusted_lines2(flag1@, flag2@);
                        &&& is_lcm(m@.lines.len() as int, la.len() as int, lb.len() as int)
                        &&& m@.lines == band_merge(la, lb, m@.lines.len() as int)
                        &&& m@.full_name == (if flag1@.full_name != flag2@.full_name {
                            flag1@.full_name + seq![' '] + flag2@.full_name
                        } else {
                            flag1@.full_name
                        })
                        &&& m@.name == flag1@.name + seq![' '] + flag2@.name
                        &&& m@.categories == seq_union(flag1@.categories, flag2@.categories)
                        &&& m@.symbols == retag(flag1@.symbols, Position::MergedLeft) + retag(
                            flag2@.symbols,
                            Position::MergedRight,
                        )
                    })
                    &&& (flag_wf(flag1@) && flag_wf(flag2@) ==> flag_wf(m@))
                },
                Err(e) => {
                    &&& e == FlagError::EmptyFlag
                    &&& flag1@.name != flag2@.name
                    &&& (flag1@.lines.len() == 0 || flag2@.lines.len() == 0)
                },
            },
    {
        let ghost l1 = flag1@.lines.len() as int;
        let ghost l2 = flag2@.lines.len() as int;
        if flag1.name.eq(&flag2.name) {
            return Ok(flag1.clone());
        }
        let len1_orig = flag1.lines.len();
        let len2_orig = flag2.lines.len();
        if len1_orig == 0 || len2_orig == 0 {
            return Err(FlagError::EmptyFlag);
        }
        proof {
            assert((l1 + 1) <= (l1 + 1) * (l2 + 1)) by (nonlinear_arith)
                requires
                    l1 + 1 >= 0,
                    l2 + 1 >= 1,
            ;
            assert((l2 + 1) <= (l1 + 1) * (l2 + 1)) by (nonlinear_arith)
                requires
                    l2 + 1 >= 0,
                    l1 + 1 >= 1,
            ;
        }
        let bump1 = len1_orig % 2 == 1 && len2_orig % 2 == 0;
        let bump2 = len1_orig % 2 == 0 && len2_orig % 2 == 1;
        let f1 = if bump1 {
            FlagData::duplicate_middle(flag1)
        } else {
            flag1.clone()
        };
        let f2 = if bump2 {
            FlagData::duplicate_middle(flag2)
        } else {
            flag2.clone()
        };
        let len1 = if bump1 {
            len1_orig + 1
        } else {
            len1_orig
        };
        let len2 = if bump2 {
            len2_orig + 1
        } else {
            len2_orig
        };
        let ghost la = adjusted_lines1(flag1@, flag2@);
        let ghost lb = adjusted_lines2(flag1@, flag2@);
        proof {
            assert(f1@.lines == la);
            assert(f2@.lines == lb);
            assert(la.len() == len1);
            assert(lb.len() == len2);
            vstd::arithmetic::mul::lemma_mul_upper_bound(
                len1 as int,
                l1 + 1,
                len2 as int,
                l2 + 1,
            );
        }
        let l = lcm_usize(len1, len2);
        let k1 = l / len1;
        let k2 = l / len2;
        proof {
            vstd::arithmetic::div_mod::lemma_fundamental_div_mod(l as int, len1 as int);
            vstd::arithmetic::div_mod::lemma_fundamental_div_mod(l as int, len2 as int);
            assert(l as int == len1 as int * k1 as int);
            assert(l as int == len2 as int * k2 as int);
            assert(1 <= k1 && 1 <= k2) by (nonlinear_arith)
                requires
                    1 <= len1 as int,
                    1 <= len2 as int,
                    0 <= k1 as int,
                    0 <= k2 as int,
                    1 <= l as int,
                    l as int == len1 as int * k1 as int,
                    l as int == len2 as int * k2 as int,
            ;
        }
        let f1m = FlagData::multiply(&f1, k1);
        let f2m = FlagData::multiply(&f2, k2);
        proof {
            assert(f1m@.lines.len() == l as int);
            assert(f2m@.lines.len() == l as int);
            assert(f1m.lines@.len() == l);
            assert(f2m.lines@.len() == l);
        }
        let mut lines: Vec<Vec<Color>> = Vec::new();
        let mut i: usize = 0;
        while i < l
            invariant
                0 <= i <= l,
                f1m.lines@.len() == l,
                f2m.lines@.len() == l,
                lines@.len() == i,
                forall|t: int|
                    0 <= t < i ==> lines.deep_view()[t] == f1m@.lines[t] + f2m@.lines[t],
            decreases l - i,
        {
            let ghost pre = lines.deep_view();
            lines.push(concat_stripe(&f1m.lines[i], &f2m.lines[i]));
            proof {
                assert forall|t: int|
                    0 <= t < i + 1 implies lines.deep_view()[t] == f1m@.lines[t]
                    + f2m@.lines[t] by {
                    if t < i {
                        assert(lines.deep_view()[t] == lines@[t].deep_view());
                        assert(lines.deep_view()[t] == pre[t]);
                    } else {
                        assert(lines.deep_view()[t] == lines@[t].deep_view());
                        assert(f1m@.lines[t] == f1m.lines@[t].deep_view());
                        assert(f2m@.lines[t] == f2m.lines@[t].deep_view());
                    }
                }
            }
            i = i + 1;
        }
        let full_name = if flag1.full_name.eq(&flag2.full_name) {
            flag1.full_name.clone()
        } else {
            join_names(&flag1.full_name, &flag2.full_name)
        };
        let name = join_names(&flag1.name, &flag2.name);
        let categories = union_cats(&flag1.categories, &flag2.categories);
        let mut symbols = retag_symbols(&flag1.symbols, Position::MergedLeft);
        let mut right = retag_symbols(&flag2.symbols, Position::MergedRight);
        let ghost left_view = symbols_view(symbols@);
        let ghost right_view = symbols_view(right@);
        symbols.append(&mut right);
        let res_flag = FlagData { full_name, name, categories, lines, symbols };
        proof {
            assert(symbols_view(symbols@) =~= left_view + right_view);
            assert(res_flag@.symbols == retag(flag1@.symbols, Position::MergedLeft) + retag(
                flag2@.symbols,
                Position::MergedRight,
            ));
            assert(res_flag@.lines.len() == l as int);
            assert forall|t: int| 0 <= t < l as int implies res_flag@.lines[t] == band_merge(
                la,
                lb,
                l as int,
            )[t] by {
                vstd::arithmetic::mul::lemma_mul_is_commutative(k1 as int, len1 as int);
                vstd::arithmetic::mul::lemma_mul_is_commutative(k2 as int, len2 as int);
                vstd::arithmetic::div_mod::lemma_multiply_divide_lt(t, k1 as int, len1 as int);
                vstd::arithmetic::div_mod::lemma_multiply_divide_lt(t, k2 as int, len2 as int);
                assert(res_flag@.lines[t] == f1m@.lines[t] + f2m@.lines[t]);
                assert(f1m@.lines[t] == la[t / k1 as int]);
                assert(f2m@.lines[t] == lb[t / k2 as int]);
            }
            assert(res_flag@.lines =~= band_merge(la, lb, l as int));
            if flag_wf(flag1@) && flag_wf(flag2@) {
                lemma_union_unique(flag1@.categories, flag2@.categories);
                if bump1 {
                    lemma_dup_middle_wf(flag1@.lines);
                }
                if bump2 {
                    lemma_dup_middle_wf(flag2@.lines);
                }
                assert forall|t: int| 0 <= t < res_flag@.lines.len() implies #[trigger] res_flag@
                    .lines[t].len() >= 1 by {
                    vstd::arithmetic::mul::lemma_mul_is_commutative(k1 as int, len1 as int);
                    vstd::arithmetic::mul::lemma_mul_is_commutative(k2 as int, len2 as int);
                    vstd::arithmetic::div_mod::lemma_multiply_divide_lt(t, k1 as int, len1 as int);
                    vstd::arithmetic::div_mod::lemma_multiply_divide_lt(t, k2 as int, len2 as int);
                    assert(res_flag@.lines[t] == la[t / k1 as int] + lb[t / k2 as int]);
                }
                assert forall|t: int, q: int|
                    0 <= t < res_flag@.lines.len() && 0 <= q < res_flag@.lines[t].len()
                    implies is_hex_color(#[trigger] res_flag@.lines[t][q]) by {
                    vstd::arithmetic::mul::lemma_mul_is_commutative(k1 as int, len1 as int);
                    vstd::arithmetic::mul::lemma_mul_is_commutative(k2 as int, len2 as int);
                    vstd::arithmetic::div_mod::lemma_multiply_divide_lt(t, k1 as int, len1 as int);
                    vstd::arithmetic::div_mod::lemma_multiply_divide_lt(t, k2 as int, len2 as int);
                    assert(res_flag@.lines[t] == la[t / k1 as int] + lb[t / k2 as int]);
                    let sa = la[t / k1 as int];
                    let sb = lb[t / k2 as int];
                    if q < sa.len() {
                        assert(res_flag@.lines[t][q] == sa[q]);
                    } else {
                        assert(res_flag@.lines[t][q] == sb[q - sa.len()]);
                    }
                }
                assert(flag_wf(res_flag@));
            }
        }
        Ok(res_flag)
    }

    /// Whether two flags mix without looking visually lopsided: after the
    /// same parity normalization as `mix`, one stripe count must evenly
    /// divide the other. A hint only: `mix` is defined for any two
    /// non-empty flags.
    pub fn is_compatible(flag1: &FlagData, flag2: &FlagData) -> (c: bool)
        requires
            flag1@.lines.len() < usize::MAX,
            flag2@.lines.len() < usize::MAX,
        ensures
            c == spec_compatible(flag1@.lines.len() as int, flag2@.lines.len() as int),
    {
        let len1_orig = flag1.lines.len();
        let len2_orig = flag2.lines.len();
        let bump1 = len1_orig % 2 == 1 && len2_orig % 2 == 0;
        let bump2 = len1_orig % 2 == 0 && len2_orig % 2 == 1;
        let len1 = if bump1 {
            len1_orig + 1
        } else {
            len1_orig
        };
        let len2 = if bump2 {
            len2_orig + 1
        } else {
            len2_orig
        };
        let first = if len1 == 0 {
            len2 == 0
        } else {
            len2 % len1 == 0
        };
        let second = if len2 == 0 {
            len1 == 0
        } else {
            len1 % len2 == 0
        };
        first || second
    }
}

} // verus!
