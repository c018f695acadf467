//! Input and output of the bin packing pipeline: bin types from the command line, solutions to start
//! from, and the files that a report writes.
use crate::scalar::Scalar;
use crate::text;
use crate::text::{parse_unsigned, position, push_decimal, split, trim};
use crate::util::io;
use crate::util::io::{parse_strip_instance, InputError, StripInstance};
use crate::util::listener::ReportType;
use jagua_rs::probs::bpp::io::ext_repr::ExtBPInstance;
use jagua_rs::probs::spp::io::ext_repr::ExtSPInstance;
use vstd::prelude::*;
use vstd::string::*;

verus! {

/// Copies of a bin type that there are if the command line gives no number.
pub const DEFAULT_BIN_STOCK: usize = 1000;

/// Cost of a bin if the command line gives none.
pub const DEFAULT_BIN_COST: u64 = 1;

/// A rectangular bin type as declared on the command line: `WxH[:stock[:cost]]`.
#[derive(Debug, Clone, Copy, PartialEq, Eq, Structural)]
pub struct BinSpec {
    /// Width of the bin.
    pub width: Scalar,
    /// Height of the bin.
    pub height: Scalar,
    /// How many copies there are.
    pub stock: usize,
    /// Cost of using one copy.
    pub cost: u64,
}

/// A rectangular bin type of an instance, with its lower left corner at the origin.
#[derive(Debug, Clone, Copy, PartialEq, Eq, Structural)]
pub struct RectBin {
    /// Its id.
    pub id: usize,
    /// Width of the bin.
    pub width: Scalar,
    /// Height of the bin.
    pub height: Scalar,
    /// How many copies there are.
    pub stock: usize,
    /// Cost of using one copy.
    pub cost: u64,
}

/// Where the width ends in the dimensions: at the first `x` or `X`; the length if there is none.
pub open spec fn cross(dims: Seq<char>) -> int {
    let (a, b) = (text::position_from(dims, 'x', 0), text::position_from(dims, 'X', 0));
    if a <= b {
        a
    } else {
        b
    }
}

/// The texts of the two dimensions; `None` if they are not separated by an `x`.
pub open spec fn dimension_texts(s: Seq<char>) -> Option<(Seq<char>, Seq<char>)> {
    let dims = text::fields(s, ':')[0];
    let i = cross(dims);
    if i < dims.len() {
        Some((dims.take(i), dims.skip(i + 1)))
    } else {
        None
    }
}

/// A quoted text in a sentence.
pub open spec fn quoted(before: Seq<char>, s: Seq<char>, after: Seq<char>) -> Seq<char> {
    before + s + after
}

/// Two quoted texts in a sentence.
pub open spec fn quoted_in(before: Seq<char>, part: Seq<char>, s: Seq<char>) -> Seq<char> {
    before + part + "' in '"@ + s + "'"@
}

fn quote(before: &str, s: &str, after: &str) -> (r: String)
    ensures
        r@ == quoted(before@, s@, after@),
{
    let mut r = String::new();
    r.append(before);
    r.append(s);
    r.append(after);
    assert(r@ =~= quoted(before@, s@, after@));
    r
}

fn quote_in(before: &str, part: &str, s: &str) -> (r: String)
    ensures
        r@ == quoted_in(before@, part@, s@),
{
    let mut r = String::new();
    r.append(before);
    r.append(part);
    r.append("' in '");
    r.append(s);
    r.append("'");
    assert(r@ =~= quoted_in(before@, part@, s@));
    r
}

/// Whether a dimension of a bin can be used.
pub open spec fn usable_dimension(v: Scalar) -> bool {
    v.finite() && (Scalar { bits: 0 }).less(v)
}

/// The number of copies that a declaration gives; `None` if it is not a number.
pub open spec fn declared_stock(parts: Seq<Seq<char>>) -> Option<nat> {
    if parts.len() > 1 {
        text::unsigned_value(text::trimmed(parts[1]), usize::MAX as nat)
    } else {
        Some(DEFAULT_BIN_STOCK as nat)
    }
}

/// The cost that a declaration gives; `None` if it is not a number.
pub open spec fn declared_cost(parts: Seq<Seq<char>>) -> Option<nat> {
    if parts.len() > 2 {
        text::unsigned_value(text::trimmed(parts[2]), u64::MAX as nat)
    } else {
        Some(DEFAULT_BIN_COST as nat)
    }
}

/// The complaint about a declaration, if there is one. `width` and `height` are the numbers that the
/// texts of the two dimensions denote.
pub open spec fn bin_spec_complaint(
    s: Seq<char>,
    width: Option<Scalar>,
    height: Option<Scalar>,
) -> Option<Seq<char>> {
    let parts = text::fields(s, ':');
    match dimension_texts(s) {
        None => Some(quoted("invalid bin spec '"@, s, "': expected WxH[:stock[:cost]]"@)),
        Some((w, h)) => if width is None {
            Some(quoted_in("invalid bin width '"@, w, s))
        } else if height is None {
            Some(quoted_in("invalid bin height '"@, h, s))
        } else if !usable_dimension(width->0) || !usable_dimension(height->0) {
            Some(quoted("bin dimensions must be finite and positive: '"@, s, "'"@))
        } else if declared_stock(parts) is None {
            Some(quoted_in("invalid bin stock '"@, parts[1], s))
        } else if declared_stock(parts) == Some(0nat) {
            Some(quoted("bin stock must be > 0: '"@, s, "'"@))
        } else if declared_cost(parts) is None {
            Some(quoted_in("invalid bin cost '"@, parts[2], s))
        } else if parts.len() > 3 {
            Some(
                quoted(
                    "too many ':' separated fields in bin spec '"@,
                    s,
                    "': expected WxH[:stock[:cost]]"@,
                ),
            )
        } else {
            None
        },
    }
}

/// The bin type that a declaration without a complaint declares.
pub open spec fn is_declared_bin(
    bin: BinSpec,
    s: Seq<char>,
    width: Option<Scalar>,
    height: Option<Scalar>,
) -> bool {
    let parts = text::fields(s, ':');
    &&& width == Some(bin.width)
    &&& height == Some(bin.height)
    &&& declared_stock(parts) == Some(bin.stock as nat)
    &&& declared_cost(parts) == Some(bin.cost as nat)
}

/// What the sentence about a declaration is made from.
pub open spec fn bin_text(width: Seq<char>, height: Seq<char>, stock: usize, cost: u64) -> Seq<char> {
    width + "x"@ + height + ":"@ + text::decimal(stock as nat) + ":"@ + text::decimal(cost as nat)
}

impl BinSpec {
    /// The texts of the two dimensions; `None` if they are not separated by an `x`.
    pub fn dimensions(s: &str) -> (r: Option<(&str, &str)>)
        ensures
            match r {
                Some((w, h)) => dimension_texts(s@) == Some((w@, h@)),
                None => dimension_texts(s@) is None,
            },
    {
        let parts = split(s, ':');
        let dims: &str = parts[0];
        assert(text::texts(parts@)[0] == dims@);
        let (a, b): (usize, usize) = (position(dims, 'x'), position(dims, 'X'));
        let i: usize = if a <= b {
            a
        } else {
            b
        };
        let n: usize = dims.unicode_len();
        if i < n {
            let (w, h) = (dims.substring_char(0, i), dims.substring_char(i + 1, n));
            assert(w@ =~= dims@.take(i as int));
            assert(h@ =~= dims@.skip(i + 1));
            Some((w, h))
        } else {
            None
        }
    }

    /// Reads `WxH`, `WxH:stock` or `WxH:stock:cost`. `width` and `height` are the numbers that the
    /// texts of the two dimensions denote, without the white space around them.
    pub fn from_str(s: &str, width: Option<Scalar>, height: Option<Scalar>) -> (r: Result<
        BinSpec,
        String,
    >)
        ensures
            match r {
                Ok(bin) => bin_spec_complaint(s@, width, height) is None && is_declared_bin(
                    bin,
                    s@,
                    width,
                    height,
                ),
                Err(e) => bin_spec_complaint(s@, width, height) == Some(e@),
            },
    {
        let (w, h) = match BinSpec::dimensions(s) {
            Some(d) => d,
            None => {
                return Err(quote("invalid bin spec '", s, "': expected WxH[:stock[:cost]]"));
            },
        };
        let width: Scalar = match width {
            Some(v) => v,
            None => {
                return Err(quote_in("invalid bin width '", w, s));
            },
        };
        let height: Scalar = match height {
            Some(v) => v,
            None => {
                return Err(quote_in("invalid bin height '", h, s));
            },
        };
        let zero = Scalar { bits: 0 };
        if !(width.is_finite() && zero.lt(width) && height.is_finite() && zero.lt(height)) {
            return Err(quote("bin dimensions must be finite and positive: '", s, "'"));
        }
        let parts = split(s, ':');
        let n: usize = parts.len();
        assert(forall|i: int|
            0 <= i < n ==> text::fields(s@, ':')[i] == (#[trigger] parts@[i])@) by {
            assert(forall|i: int|
                0 <= i < n ==> text::texts(parts@)[i] == (#[trigger] parts@[i])@);
        }
        assert(text::fields(s@, ':').len() == n);
        let stock: usize = if n > 1 {
            match parse_unsigned(trim(parts[1]), usize::MAX as u64) {
                Some(v) => v as usize,
                None => {
                    return Err(quote_in("invalid bin stock '", parts[1], s));
                },
            }
        } else {
            DEFAULT_BIN_STOCK
        };
        if stock == 0 {
            return Err(quote("bin stock must be > 0: '", s, "'"));
        }
        let cost: u64 = if n > 2 {
            match parse_unsigned(trim(parts[2]), u64::MAX) {
                Some(v) => v,
                None => {
                    return Err(quote_in("invalid bin cost '", parts[2], s));
                },
            }
        } else {
            DEFAULT_BIN_COST
        };
        if n > 3 {
            return Err(
                quote(
                    "too many ':' separated fields in bin spec '",
                    s,
                    "': expected WxH[:stock[:cost]]",
                ),
            );
        }
        Ok(BinSpec { width, height, stock, cost })
    }

    /// The bin type of an instance, with the given id.
    pub fn to_ext_bin(self, id: usize) -> (r: RectBin)
        ensures
            r == (RectBin {
                id,
                width: self.width,
                height: self.height,
                stock: self.stock,
                cost: self.cost,
            }),
    {
        RectBin {
            id,
            width: self.width,
            height: self.height,
            stock: self.stock,
            cost: self.cost,
        }
    }

    /// The declaration, with the two dimensions given as text.
    pub fn to_string(&self, width: &str, height: &str) -> (s: String)
        ensures
            s@ == bin_text(width@, height@, self.stock, self.cost),
    {
        let mut s = String::new();
        s.append(width);
        s.append("x");
        s.append(height);
        s.append(":");
        push_decimal(&mut s, self.stock as u64);
        s.append(":");
        push_decimal(&mut s, self.cost);
        assert(s@ =~= bin_text(width@, height@, self.stock, self.cost));
        s
    }
}

/// **An accepted declaration is usable**: whatever the text, the bin type that it declares has a finite
/// positive width, a finite positive height and at least one copy.
pub proof fn lemma_declared_bin_is_usable(
    bin: BinSpec,
    s: Seq<char>,
    width: Option<Scalar>,
    height: Option<Scalar>,
)
    requires
        bin_spec_complaint(s, width, height) is None,
        is_declared_bin(bin, s, width, height),
    ensures
        usable_dimension(bin.width),
        usable_dimension(bin.height),
        bin.stock > 0,
{
}

/// **A declaration that was written out reads back**: the text of a usable bin type, with dimensions
/// that hold neither an `x` nor a colon, declares that bin type.
pub proof fn lemma_bin_spec_round_trip(bin: BinSpec, w: Seq<char>, h: Seq<char>)
    requires
        usable_dimension(bin.width),
        usable_dimension(bin.height),
        bin.stock > 0,
        forall|i: int| 0 <= i < w.len() ==> #[trigger] w[i] != 'x' && w[i] != 'X' && w[i] != ':',
        forall|i: int| 0 <= i < h.len() ==> #[trigger] h[i] != ':',
    ensures
        ({
            let s = bin_text(w, h, bin.stock, bin.cost);
            &&& dimension_texts(s) == Some((w, h))
            &&& bin_spec_complaint(s, Some(bin.width), Some(bin.height)) is None
            &&& is_declared_bin(bin, s, Some(bin.width), Some(bin.height))
        }),
{
    reveal_strlit("x");
    reveal_strlit(":");
    let s = bin_text(w, h, bin.stock, bin.cost);
    let dims = w + seq!['x'] + h;
    let (stock, cost) = (text::decimal(bin.stock as nat), text::decimal(bin.cost as nat));
    text::lemma_decimal_is_plain(bin.stock as nat);
    text::lemma_decimal_is_plain(bin.cost as nat);
    text::lemma_decimal_round_trip(bin.stock as nat, usize::MAX as nat);
    text::lemma_decimal_round_trip(bin.cost as nat, u64::MAX as nat);
    assert forall|i: int| 0 <= i < dims.len() implies #[trigger] dims[i] != ':' by {
        if i < w.len() {
            assert(dims[i] == w[i]);
        } else if i > w.len() {
            assert(dims[i] == h[i - w.len() - 1]);
        }
    }
    assert forall|i: int| 0 <= i < stock.len() implies #[trigger] stock[i] != ':' by {
        assert(text::is_digit(stock[i]));
    }
    assert forall|i: int| 0 <= i < cost.len() implies #[trigger] cost[i] != ':' by {
        assert(text::is_digit(cost[i]));
    }
    let tail = stock + seq![':'] + cost;
    text::lemma_one_field(cost, ':');
    text::lemma_first_field(stock, ':', cost);
    text::lemma_first_field(dims, ':', tail);
    assert(s =~= dims + seq![':'] + tail);
    assert(text::fields(s, ':') =~= seq![dims, stock, cost]);
    let n = w.len() as int;
    assert forall|i: int| 0 <= i < n implies #[trigger] dims[i] != 'x' && dims[i] != 'X' by {
        assert(dims[i] == w[i]);
    }
    assert(dims[n] == 'x');
    text::lemma_position_is(dims, 'x', n);
    text::lemma_no_position_before(dims, 'X', n);
    assert(dims.take(n) =~= w);
    assert(dims.skip(n + 1) =~= h);
}

/// The bin types that an instance without bins gets from the command line.
pub open spec fn ext_bins(bins: Seq<BinSpec>) -> Seq<RectBin> {
    Seq::new(
        bins.len(),
        |i: int|
            RectBin {
                id: i as usize,
                width: bins[i].width,
                height: bins[i].height,
                stock: bins[i].stock,
                cost: bins[i].cost,
            },
    )
}

/// The bin types that a strip packing instance, which has none, gets from the command line: their
/// ids count up from zero, in the order given.
pub fn bp_instance_from_sp(bins: &Vec<BinSpec>) -> (r: Vec<RectBin>)
    ensures
        r@ == ext_bins(bins@),
{
    let mut r: Vec<RectBin> = Vec::new();
    let mut i: usize = 0;
    while i < bins.len()
        invariant
            i <= bins@.len(),
            r@ == ext_bins(bins@).take(i as int),
        decreases bins@.len() - i,
    {
        r.push(bins[i].to_ext_bin(i));
        assert(ext_bins(bins@).take(i + 1) =~= ext_bins(bins@).take(i as int).push(
            ext_bins(bins@)[i as int],
        ));
        i = i + 1;
    }
    assert(ext_bins(bins@).take(i as int) =~= ext_bins(bins@));
    r
}

/// The bin packing instance of `jagua_rs`, as it stands in a file. It is carried through as a whole;
/// what it holds is not seen here.
#[verifier::external_type_specification]
#[verifier::external_body]
pub struct ExExtBPInstance(ExtBPInstance);

/// A bin packing instance as it was read.
pub struct BinInstance {
    /// The instance itself.
    pub outside: ExtBPInstance,
    /// The id and the demand of every item, in order.
    pub items: Vec<(u64, u64)>,
}

impl View for BinInstance {
    type V = (ExtBPInstance, Seq<(u64, u64)>);

    open spec fn view(&self) -> (ExtBPInstance, Seq<(u64, u64)>) {
        (self.outside, self.items@)
    }
}

/// What a bin packing input holds.
pub enum BinInput {
    /// An instance with a solution to start from.
    Solved,
    /// An instance with bins.
    Instance(BinInstance),
    /// A strip packing instance, which gets its bins from the command line.
    Strip(StripInstance),
}

/// What `serde_json::from_str` makes of a text as a bin packing instance: the instance, with the ids
/// and demands of its items; `None` if it is not one.
pub uninterp spec fn bin_instance_of(text: Seq<char>) -> Option<(ExtBPInstance, Seq<(u64, u64)>)>;

/// Reads a bin packing instance with `serde_json::from_str`. The instance, with the ids and demands of
/// its items, or that there is none, is named: it depends on the text alone.
#[verifier::external_body]
fn parse_bin_instance(text: &str) -> (r: Option<BinInstance>)
    ensures
        bin_instance_of(text@) == match r {
            Some(i) => Some(i@),
            None => None,
        },
{
    match serde_json::from_str::<ExtBPInstance>(text) {
        Ok(outside) => {
            let items = outside.items.iter().map(|it| (it.base.id, it.demand)).collect();
            Some(BinInstance { outside, items })
        },
        Err(_) => None,
    }
}

/// What becomes of an input that holds no bins, given what it is as a strip packing instance: it is
/// taken as one if the command line declares bins.
pub fn strip_input(strip: Result<StripInstance, String>, n_bins: usize) -> (r: Result<
    BinInput,
    InputError,
>)
    ensures
        r == (match strip {
            Err(reason) => Err::<BinInput, InputError>(InputError::Unreadable { reason }),
            Ok(i) => if n_bins == 0 {
                Err(InputError::NoBins)
            } else {
                Ok(BinInput::Strip(i))
            },
        }),
{
    match strip {
        Err(reason) => Err(InputError::Unreadable { reason }),
        Ok(i) => if n_bins == 0 {
            Err(InputError::NoBins)
        } else {
            Ok(BinInput::Strip(i))
        },
    }
}

/// Reads a bin packing input as the first form that fits: a solved instance, an instance with bins, or
/// a strip packing instance, for which the command line has to declare bins. `solved` says whether the
/// text is an instance with a solution.
pub fn read_bpp_input(text: &str, solved: bool, n_bins: usize) -> (r: Result<BinInput, InputError>)
    ensures
        match r {
            Ok(BinInput::Solved) => solved,
            Ok(BinInput::Instance(i)) => !solved && bin_instance_of(text@) == Some(i@),
            Ok(BinInput::Strip(i)) => {
                &&& !solved
                &&& bin_instance_of(text@) is None
                &&& n_bins > 0
                &&& io::strip_instance_of(text@) == Ok::<
                    (ExtSPInstance, Seq<(u64, u64)>),
                    Seq<char>,
                >(i@)
            },
            Err(InputError::NoBins) => {
                &&& !solved
                &&& bin_instance_of(text@) is None
                &&& n_bins == 0
                &&& io::strip_instance_of(text@) is Ok
            },
            Err(InputError::Unreadable { reason }) => {
                &&& !solved
                &&& bin_instance_of(text@) is None
                &&& io::strip_instance_of(text@) == Err::<
                    (ExtSPInstance, Seq<(u64, u64)>),
                    Seq<char>,
                >(reason@)
            },
        },
{
    if solved {
        return Ok(BinInput::Solved);
    }
    match parse_bin_instance(text) {
        Some(i) => Ok(BinInput::Instance(i)),
        None => strip_input(parse_strip_instance(text), n_bins),
    }
}

/// One layout of a solution to start from.
#[derive(Debug, Clone)]
pub struct ImportLayout {
    /// Which bin type it uses.
    pub bin_id: usize,
    /// The items that are placed in it, in order.
    pub items: Vec<usize>,
}

/// One placement that is carried out again.
#[derive(Debug, Clone, Copy, PartialEq, Eq, Structural)]
pub struct Replay {
    /// Position of its layout.
    pub layout: usize,
    /// Its position in the layout.
    pub index: usize,
    /// Which item it places.
    pub item_id: usize,
    /// The bin type that it opens a bin of; `None` if it joins the bin that was opened last.
    pub opens: Option<usize>,
}

/// Why a solution cannot be started from.
#[derive(Debug, Clone, Copy, PartialEq, Eq, Structural)]
pub enum ImportError {
    /// There is no such bin type.
    UnknownBin {
        /// Position of the layout.
        layout: usize,
        /// The bin type.
        bin_id: usize,
    },
    /// All copies of the bin type are used.
    NoStock {
        /// Position of the layout.
        layout: usize,
        /// The bin type.
        bin_id: usize,
    },
    /// There is no such item.
    UnknownItem {
        /// Position of the layout.
        layout: usize,
        /// The item.
        item_id: usize,
    },
    /// The item is placed more often than it is demanded.
    TooMany {
        /// Position of the layout.
        layout: usize,
        /// The item.
        item_id: usize,
    },
}

/// What is left after some of the placements, and the placements themselves.
#[verifier::ext_equal]
pub struct ImportState {
    /// Copies that are left of each bin type.
    pub stock: Seq<usize>,
    /// Copies that are still demanded of each item.
    pub demand: Seq<usize>,
    /// The placements so far.
    pub plan: Seq<Replay>,
}

/// One more placement.
pub open spec fn placed_once(s: ImportState, p: Replay) -> Result<ImportState, ImportError> {
    if p.item_id >= s.demand.len() {
        Err(ImportError::UnknownItem { layout: p.layout, item_id: p.item_id })
    } else if s.demand[p.item_id as int] == 0 {
        Err(ImportError::TooMany { layout: p.layout, item_id: p.item_id })
    } else {
        Ok(
            ImportState {
                stock: match p.opens {
                    Some(bin) => s.stock.update(bin as int, (s.stock[bin as int] - 1) as usize),
                    None => s.stock,
                },
                demand: s.demand.update(
                    p.item_id as int,
                    (s.demand[p.item_id as int] - 1) as usize,
                ),
                plan: s.plan.push(p),
            },
        )
    }
}

/// The placement at a position of a layout: the first one opens the bin.
pub open spec fn replay_of(layout: int, l: ImportLayout, j: int) -> Replay {
    Replay {
        layout: layout as usize,
        index: j as usize,
        item_id: l.items@[j],
        opens: if j == 0 {
            Some(l.bin_id)
        } else {
            None
        },
    }
}

/// The first `j` placements of a layout.
pub open spec fn items_imported(s: ImportState, layout: int, l: ImportLayout, j: nat) -> Result<
    ImportState,
    ImportError,
>
    decreases j,
{
    if j == 0 {
        Ok(s)
    } else {
        match items_imported(s, layout, l, (j - 1) as nat) {
            Ok(t) => placed_once(t, replay_of(layout, l, j - 1)),
            Err(e) => Err(e),
        }
    }
}

/// One more layout. One without placements is passed over.
pub open spec fn layout_imported(s: ImportState, layout: int, l: ImportLayout) -> Result<
    ImportState,
    ImportError,
> {
    if l.bin_id >= s.stock.len() {
        Err(ImportError::UnknownBin { layout: layout as usize, bin_id: l.bin_id })
    } else if l.items@.len() == 0 {
        Ok(s)
    } else if s.stock[l.bin_id as int] == 0 {
        Err(ImportError::NoStock { layout: layout as usize, bin_id: l.bin_id })
    } else {
        items_imported(s, layout, l, l.items@.len())
    }
}

/// The first `m` layouts.
pub open spec fn layouts_imported(s: ImportState, layouts: Seq<ImportLayout>, m: nat) -> Result<
    ImportState,
    ImportError,
>
    decreases m,
{
    if m == 0 {
        Ok(s)
    } else {
        match layouts_imported(s, layouts, (m - 1) as nat) {
            Ok(t) => layout_imported(t, m - 1, layouts[m - 1]),
            Err(e) => Err(e),
        }
    }
}

/// Nothing is placed yet.
pub open spec fn import_start(stock: Seq<usize>, demand: Seq<usize>) -> ImportState {
    ImportState { stock, demand, plan: seq![] }
}

proof fn lemma_item_error_stays(s: ImportState, layout: int, l: ImportLayout, j: nat, n: nat)
    requires
        j <= n,
        items_imported(s, layout, l, j) is Err,
    ensures
        items_imported(s, layout, l, n) == items_imported(s, layout, l, j),
    decreases n,
{
    if j < n {
        lemma_item_error_stays(s, layout, l, j, (n - 1) as nat);
    }
}

proof fn lemma_layout_error_stays(s: ImportState, layouts: Seq<ImportLayout>, m: nat, n: nat)
    requires
        m <= n,
        layouts_imported(s, layouts, m) is Err,
    ensures
        layouts_imported(s, layouts, n) == layouts_imported(s, layouts, m),
    decreases n,
{
    if m < n {
        lemma_layout_error_stays(s, layouts, m, (n - 1) as nat);
    }
}

fn copied(v: &Vec<usize>) -> (r: Vec<usize>)
    ensures
        r@ == v@,
{
    let mut r: Vec<usize> = Vec::new();
    let mut i: usize = 0;
    while i < v.len()
        invariant
            i <= v@.len(),
            r@ == v@.take(i as int),
        decreases v@.len() - i,
    {
        r.push(v[i]);
        assert(v@.take(i + 1) =~= v@.take(i as int).push(v@[i as int]));
        i = i + 1;
    }
    assert(v@.take(i as int) =~= v@);
    r
}

/// The placements that rebuild a solution: in every layout the first placement opens a bin, and the
/// others join it.
///
/// `stock` holds how many copies there are of each bin type, `demand` how often each item is
/// demanded.
pub fn import_bp_solution(
    layouts: &Vec<ImportLayout>,
    stock: &Vec<usize>,
    demand: &Vec<usize>,
) -> (r: Result<Vec<Replay>, ImportError>)
    ensures
        match r {
            Ok(plan) => layouts_imported(
                import_start(stock@, demand@),
                layouts@,
                layouts@.len(),
            ) matches Ok(s) && s.plan == plan@,
            Err(e) => layouts_imported(import_start(stock@, demand@), layouts@, layouts@.len())
                == Err::<ImportState, ImportError>(e),
        },
{
    let ghost start = import_start(stock@, demand@);
    let mut left: Vec<usize> = copied(stock);
    let mut missing: Vec<usize> = copied(demand);
    let mut plan: Vec<Replay> = Vec::new();
    let n: usize = layouts.len();
    let mut i: usize = 0;
    assert(start =~= ImportState { stock: left@, demand: missing@, plan: plan@ });
    while i < n
        invariant
            i <= n,
            n == layouts@.len(),
            layouts_imported(start, layouts@, i as nat) == Ok::<ImportState, ImportError>(
                ImportState { stock: left@, demand: missing@, plan: plan@ },
            ),
            start == import_start(stock@, demand@),
        decreases n - i,
    {
        let l: &ImportLayout = &layouts[i];
        let bin_id: usize = l.bin_id;
        let ghost before = ImportState { stock: left@, demand: missing@, plan: plan@ };
        assert(layouts_imported(start, layouts@, (i + 1) as nat) == layout_imported(
            before,
            i as int,
            *l,
        ));
        if bin_id >= left.len() {
            proof {
                lemma_layout_error_stays(start, layouts@, (i + 1) as nat, n as nat);
            }
            return Err(ImportError::UnknownBin { layout: i, bin_id });
        }
        let k: usize = l.items.len();
        if k > 0 {
            if left[bin_id] == 0 {
                proof {
                    lemma_layout_error_stays(start, layouts@, (i + 1) as nat, n as nat);
                }
                return Err(ImportError::NoStock { layout: i, bin_id });
            }
            let mut j: usize = 0;
            while j < k
                invariant
                    j <= k,
                    k == l.items@.len(),
                    i < n,
                    n == layouts@.len(),
                    *l == layouts@[i as int],
                    bin_id == l.bin_id,
                    bin_id < left@.len(),
                    bin_id < before.stock.len(),
                    before.stock[bin_id as int] > 0,
                    j == 0 ==> left@ == before.stock,
                    start == import_start(stock@, demand@),
                    layouts_imported(start, layouts@, (i + 1) as nat) == layout_imported(
                        before,
                        i as int,
                        *l,
                    ),
                    items_imported(before, i as int, *l, j as nat) == Ok::<
                        ImportState,
                        ImportError,
                    >(ImportState { stock: left@, demand: missing@, plan: plan@ }),
                decreases k - j,
            {
                let item_id: usize = l.items[j];
                let ghost p = replay_of(i as int, *l, j as int);
                let ghost mid = ImportState { stock: left@, demand: missing@, plan: plan@ };
                assert(items_imported(before, i as int, *l, (j + 1) as nat) == placed_once(mid, p));
                if item_id >= missing.len() {
                    proof {
                        lemma_item_error_stays(before, i as int, *l, (j + 1) as nat, k as nat);
                        lemma_layout_error_stays(start, layouts@, (i + 1) as nat, n as nat);
                    }
                    return Err(ImportError::UnknownItem { layout: i, item_id });
                }
                if missing[item_id] == 0 {
                    proof {
                        lemma_item_error_stays(before, i as int, *l, (j + 1) as nat, k as nat);
                        lemma_layout_error_stays(start, layouts@, (i + 1) as nat, n as nat);
                    }
                    return Err(ImportError::TooMany { layout: i, item_id });
                }
                let opens: Option<usize> = if j == 0 {
                    Some(bin_id)
                } else {
                    None
                };
                if j == 0 {
                    let copies: usize = left[bin_id];
                    left.set(bin_id, copies - 1);
                }
                let copies: usize = missing[item_id];
                missing.set(item_id, copies - 1);
                plan.push(Replay { layout: i, index: j, item_id, opens });
                j = j + 1;
            }
        }
        i = i + 1;
    }
    Ok(plan)
}

/// How often an item is placed.
pub open spec fn copies_placed(plan: Seq<Replay>, item_id: usize) -> nat
    decreases plan.len(),
{
    if plan.len() == 0 {
        0
    } else {
        copies_placed(plan.drop_last(), item_id) + if plan.last().item_id == item_id {
            1nat
        } else {
            0
        }
    }
}

/// How many bins of a type are opened.
pub open spec fn bins_opened(plan: Seq<Replay>, bin_id: usize) -> nat
    decreases plan.len(),
{
    if plan.len() == 0 {
        0
    } else {
        bins_opened(plan.drop_last(), bin_id) + if plan.last().opens == Some(bin_id) {
            1nat
        } else {
            0
        }
    }
}

/// The number of placements of the first `m` layouts.
pub open spec fn placements_of(layouts: Seq<ImportLayout>, m: nat) -> nat
    decreases m,
{
    if m == 0 {
        0
    } else {
        placements_of(layouts, (m - 1) as nat) + layouts[m - 1].items@.len()
    }
}

/// What is placed and what is left add up to what there was.
pub open spec fn adds_up(s: ImportState, start: ImportState) -> bool {
    &&& s.stock.len() == start.stock.len()
    &&& s.demand.len() == start.demand.len()
    &&& forall|id: usize|
        id < s.demand.len() ==> #[trigger] copies_placed(s.plan, id) + s.demand[id as int]
            == start.demand[id as int]
    &&& forall|b: usize|
        b < s.stock.len() ==> #[trigger] bins_opened(s.plan, b) + s.stock[b as int]
            == start.stock[b as int]
}

proof fn lemma_items_add_up(s: ImportState, start: ImportState, layout: int, l: ImportLayout, j: nat)
    requires
        adds_up(s, start),
        l.bin_id < s.stock.len(),
        s.stock[l.bin_id as int] > 0,
        j <= l.items@.len(),
    ensures
        items_imported(s, layout, l, j) matches Ok(t) ==> adds_up(t, start) && t.plan.len()
            == s.plan.len() + j && (j == 0 ==> t == s),
    decreases j,
{
    if j > 0 {
        lemma_items_add_up(s, start, layout, l, (j - 1) as nat);
        if let Ok(t) = items_imported(s, layout, l, (j - 1) as nat) {
            let p = replay_of(layout, l, j - 1);
            if let Ok(u) = placed_once(t, p) {
                assert(u.plan.drop_last() =~= t.plan);
                assert(u.plan.last() == p);
                assert forall|id: usize| id < u.demand.len() implies #[trigger] copies_placed(
                    u.plan,
                    id,
                ) + u.demand[id as int] == start.demand[id as int] by {
                    assert(copies_placed(t.plan, id) + t.demand[id as int]
                        == start.demand[id as int]);
                }
                assert forall|b: usize| b < u.stock.len() implies #[trigger] bins_opened(u.plan, b)
                    + u.stock[b as int] == start.stock[b as int] by {
                    assert(bins_opened(t.plan, b) + t.stock[b as int] == start.stock[b as int]);
                }
            }
        }
    }
}

/// **A solution that is started from keeps to the stock and the demand**: no item is placed more
/// often than it is demanded, no more bins of a type are opened than there are, and no placement is
/// lost.
pub proof fn lemma_import_adds_up(
    stock: Seq<usize>,
    demand: Seq<usize>,
    layouts: Seq<ImportLayout>,
    m: nat,
)
    requires
        m <= layouts.len(),
    ensures
        layouts_imported(import_start(stock, demand), layouts, m) matches Ok(s) ==> adds_up(
            s,
            import_start(stock, demand),
        ) && s.plan.len() == placements_of(layouts, m),
    decreases m,
{
    let start = import_start(stock, demand);
    if m > 0 {
        lemma_import_adds_up(stock, demand, layouts, (m - 1) as nat);
        if let Ok(s) = layouts_imported(start, layouts, (m - 1) as nat) {
            let l = layouts[m - 1];
            if l.bin_id < s.stock.len() && s.stock[l.bin_id as int] > 0 {
                lemma_items_add_up(s, start, m - 1, l, l.items@.len());
            }
        }
    } else {
        assert forall|id: usize| id < demand.len() implies #[trigger] copies_placed(start.plan, id)
            == 0 by {}
        assert forall|b: usize| b < stock.len() implies #[trigger] bins_opened(start.plan, b)
            == 0 by {}
    }
}

/// The first `j` placements of a layout, in order.
pub open spec fn replays(layout: int, l: ImportLayout, j: nat) -> Seq<Replay> {
    Seq::new(j, |k: int| replay_of(layout, l, k))
}

/// The placements of the first `m` layouts, in order.
pub open spec fn plan_of(layouts: Seq<ImportLayout>, m: nat) -> Seq<Replay>
    decreases m,
{
    if m == 0 {
        seq![]
    } else {
        plan_of(layouts, (m - 1) as nat) + replays(
            m - 1,
            layouts[m - 1],
            layouts[m - 1].items@.len(),
        )
    }
}

/// The bin types and the items of those of the first `m` layouts that hold an item.
pub open spec fn filled_layouts(layouts: Seq<ImportLayout>, m: nat) -> Seq<(usize, Seq<usize>)>
    decreases m,
{
    if m == 0 {
        seq![]
    } else if layouts[m - 1].items@.len() == 0 {
        filled_layouts(layouts, (m - 1) as nat)
    } else {
        filled_layouts(layouts, (m - 1) as nat).push((layouts[m - 1].bin_id, layouts[m - 1].items@))
    }
}

/// The bins that come of carrying out a plan, as bin types with items: a placement that opens a bin
/// starts one, any other joins the last.
pub open spec fn carried_out(plan: Seq<Replay>) -> Seq<(usize, Seq<usize>)>
    decreases plan.len(),
{
    if plan.len() == 0 {
        seq![]
    } else {
        let (bins, p) = (carried_out(plan.drop_last()), plan.last());
        match p.opens {
            Some(bin_id) => bins.push((bin_id, seq![p.item_id])),
            None => bins.drop_last().push((bins.last().0, bins.last().1.push(p.item_id))),
        }
    }
}

/// The layouts name bin types and items that exist, open no more bins of a type than are in stock and
/// place no item more often than it is demanded.
pub open spec fn within_stock_and_demand(
    layouts: Seq<ImportLayout>,
    stock: Seq<usize>,
    demand: Seq<usize>,
) -> bool {
    &&& forall|i: int| 0 <= i < layouts.len() ==> (#[trigger] layouts[i]).bin_id < stock.len()
    &&& forall|i: int, j: int|
        0 <= i < layouts.len() && 0 <= j < layouts[i].items@.len()
            ==> #[trigger] layouts[i].items@[j] < demand.len()
    &&& forall|b: usize|
        b < stock.len() ==> #[trigger] bins_opened(plan_of(layouts, layouts.len()), b)
            <= stock[b as int]
    &&& forall|id: usize|
        id < demand.len() ==> #[trigger] copies_placed(plan_of(layouts, layouts.len()), id)
            <= demand[id as int]
}

proof fn lemma_counts_grow(plan: Seq<Replay>, n: int, id: usize)
    requires
        0 <= n <= plan.len(),
    ensures
        copies_placed(plan.take(n), id) <= copies_placed(plan, id),
        bins_opened(plan.take(n), id) <= bins_opened(plan, id),
    decreases plan.len() - n,
{
    if n < plan.len() {
        lemma_counts_grow(plan, n + 1, id);
        assert(plan.take(n + 1).drop_last() =~= plan.take(n));
    } else {
        assert(plan.take(n) =~= plan);
    }
}

proof fn lemma_plan_grows(layouts: Seq<ImportLayout>, m: nat, n: nat)
    requires
        m <= n,
    ensures
        plan_of(layouts, m).len() <= plan_of(layouts, n).len(),
        plan_of(layouts, n).take(plan_of(layouts, m).len() as int) == plan_of(layouts, m),
    decreases n,
{
    if m < n {
        lemma_plan_grows(layouts, m, (n - 1) as nat);
        assert(plan_of(layouts, n).take(plan_of(layouts, m).len() as int) =~= plan_of(
            layouts,
            (n - 1) as nat,
        ).take(plan_of(layouts, m).len() as int));
    } else {
        assert(plan_of(layouts, n).take(plan_of(layouts, m).len() as int) =~= plan_of(layouts, m));
    }
}

proof fn lemma_items_in_order(s: ImportState, layout: int, l: ImportLayout, j: nat)
    ensures
        items_imported(s, layout, l, j) matches Ok(t) ==> t.plan == s.plan + replays(layout, l, j),
    decreases j,
{
    if j > 0 {
        lemma_items_in_order(s, layout, l, (j - 1) as nat);
        if let Ok(t) = items_imported(s, layout, l, (j - 1) as nat) {
            assert(t.plan.push(replay_of(layout, l, j - 1)) =~= s.plan + replays(layout, l, j));
        }
    } else {
        assert(s.plan + replays(layout, l, 0) =~= s.plan);
    }
}

proof fn lemma_layout_carried_out(plan: Seq<Replay>, layout: int, l: ImportLayout, j: nat)
    requires
        0 < j <= l.items@.len(),
    ensures
        carried_out(plan + replays(layout, l, j)) == carried_out(plan).push(
            (l.bin_id, l.items@.take(j as int)),
        ),
    decreases j,
{
    let all = plan + replays(layout, l, j);
    assert(all.drop_last() =~= plan + replays(layout, l, (j - 1) as nat));
    assert(all.last() == replay_of(layout, l, j - 1));
    if j == 1 {
        assert(all.drop_last() =~= plan);
        assert(l.items@.take(1) =~= seq![l.items@[0]]);
    } else {
        lemma_layout_carried_out(plan, layout, l, (j - 1) as nat);
        let bins = carried_out(all.drop_last());
        assert(bins.drop_last() =~= carried_out(plan));
        assert(l.items@.take(j - 1).push(l.items@[j - 1]) =~= l.items@.take(j as int));
    }
}

/// **What is imported is what was there**: the plan of an import consists of the placements of the
/// layouts in their order, and carrying it out gives the bin types and the items of the layouts back,
/// without those that hold nothing.
pub proof fn lemma_import_is_faithful(
    stock: Seq<usize>,
    demand: Seq<usize>,
    layouts: Seq<ImportLayout>,
    m: nat,
)
    requires
        m <= layouts.len(),
    ensures
        layouts_imported(import_start(stock, demand), layouts, m) matches Ok(s) ==> s.plan == plan_of(
            layouts,
            m,
        ) && carried_out(s.plan) == filled_layouts(layouts, m),
    decreases m,
{
    let start = import_start(stock, demand);
    if m > 0 {
        lemma_import_is_faithful(stock, demand, layouts, (m - 1) as nat);
        if let Ok(s) = layouts_imported(start, layouts, (m - 1) as nat) {
            let l = layouts[m - 1];
            let n = l.items@.len();
            lemma_items_in_order(s, m - 1, l, n);
            if n > 0 {
                lemma_layout_carried_out(s.plan, m - 1, l, n);
                assert(l.items@.take(n as int) =~= l.items@);
            } else {
                assert(plan_of(layouts, m) =~= s.plan);
            }
        }
    }
}

proof fn lemma_items_fit(s: ImportState, start: ImportState, layout: int, l: ImportLayout, j: nat)
    requires
        adds_up(s, start),
        l.bin_id < s.stock.len(),
        s.stock[l.bin_id as int] > 0,
        j <= l.items@.len(),
        forall|k: int| 0 <= k < l.items@.len() ==> #[trigger] l.items@[k] < s.demand.len(),
        forall|id: usize|
            id < s.demand.len() ==> #[trigger] copies_placed(
                s.plan + replays(layout, l, l.items@.len()),
                id,
            ) <= start.demand[id as int],
    ensures
        items_imported(s, layout, l, j) is Ok,
    decreases j,
{
    if j > 0 {
        lemma_items_fit(s, start, layout, l, (j - 1) as nat);
        lemma_items_add_up(s, start, layout, l, (j - 1) as nat);
        lemma_items_in_order(s, layout, l, (j - 1) as nat);
        let t = items_imported(s, layout, l, (j - 1) as nat)->Ok_0;
        let p = replay_of(layout, l, j - 1);
        let id = l.items@[j - 1];
        let all = s.plan + replays(layout, l, l.items@.len());
        lemma_counts_grow(all, (s.plan.len() + j) as int, id);
        assert(all.take((s.plan.len() + j) as int) =~= t.plan.push(p));
        assert(t.plan.push(p).drop_last() =~= t.plan);
        assert(copies_placed(t.plan, id) + t.demand[id as int] == start.demand[id as int]);
        assert(copies_placed(all, id) <= start.demand[id as int]);
    }
}

proof fn lemma_layouts_fit(
    stock: Seq<usize>,
    demand: Seq<usize>,
    layouts: Seq<ImportLayout>,
    m: nat,
)
    requires
        within_stock_and_demand(layouts, stock, demand),
        m <= layouts.len(),
    ensures
        layouts_imported(import_start(stock, demand), layouts, m) is Ok,
    decreases m,
{
    if m > 0 {
        let start = import_start(stock, demand);
        let earlier = (m - 1) as nat;
        lemma_layouts_fit(stock, demand, layouts, earlier);
        lemma_import_adds_up(stock, demand, layouts, earlier);
        lemma_import_is_faithful(stock, demand, layouts, earlier);
        let s = layouts_imported(start, layouts, earlier)->Ok_0;
        let l = layouts[m - 1];
        let n = l.items@.len();
        let (all, here) = (plan_of(layouts, layouts.len()), plan_of(layouts, m));
        lemma_plan_grows(layouts, m, layouts.len());
        if n > 0 {
            assert forall|id: usize| id < demand.len() implies #[trigger] copies_placed(here, id)
                <= demand[id as int] by {
                lemma_counts_grow(all, here.len() as int, id);
                assert(copies_placed(all, id) <= demand[id as int]);
            }
            let opened = s.plan.push(replay_of(m - 1, l, 0));
            assert(opened.drop_last() =~= s.plan);
            assert(here.take(opened.len() as int) =~= opened);
            lemma_counts_grow(here, opened.len() as int, l.bin_id);
            lemma_counts_grow(all, here.len() as int, l.bin_id);
            assert(bins_opened(all, l.bin_id) <= stock[l.bin_id as int]);
            assert(bins_opened(s.plan, l.bin_id) + s.stock[l.bin_id as int]
                == stock[l.bin_id as int]);
            assert forall|k: int| 0 <= k < n implies #[trigger] l.items@[k] < s.demand.len() by {
                assert(layouts[m - 1].items@[k] < demand.len());
            }
            lemma_items_fit(s, start, m - 1, l, n);
        }
    }
}

proof fn lemma_items_known(s: ImportState, layout: int, l: ImportLayout, j: nat)
    requires
        items_imported(s, layout, l, j) is Ok,
        j <= l.items@.len(),
    ensures
        forall|k: int| 0 <= k < j ==> #[trigger] l.items@[k] < s.demand.len(),
        (items_imported(s, layout, l, j)->Ok_0).demand.len() == s.demand.len(),
    decreases j,
{
    if j > 0 {
        lemma_items_known(s, layout, l, (j - 1) as nat);
    }
}

proof fn lemma_layouts_known(
    stock: Seq<usize>,
    demand: Seq<usize>,
    layouts: Seq<ImportLayout>,
    m: nat,
)
    requires
        layouts_imported(import_start(stock, demand), layouts, m) is Ok,
        m <= layouts.len(),
    ensures
        forall|i: int| 0 <= i < m ==> (#[trigger] layouts[i]).bin_id < stock.len(),
        forall|i: int, j: int|
            0 <= i < m && 0 <= j < layouts[i].items@.len() ==> #[trigger] layouts[i].items@[j]
                < demand.len(),
    decreases m,
{
    if m > 0 {
        let earlier = (m - 1) as nat;
        lemma_layouts_known(stock, demand, layouts, earlier);
        lemma_import_adds_up(stock, demand, layouts, earlier);
        let s = layouts_imported(import_start(stock, demand), layouts, earlier)->Ok_0;
        let l = layouts[m - 1];
        if l.items@.len() > 0 {
            lemma_items_known(s, m - 1, l, l.items@.len());
        }
    }
}

/// **A solution can be started from if and only if it keeps to the stock and the demand**, whether all
/// of its layouts hold items or not.
pub proof fn lemma_import_succeeds_within_stock_and_demand(
    stock: Seq<usize>,
    demand: Seq<usize>,
    layouts: Seq<ImportLayout>,
)
    ensures
        layouts_imported(import_start(stock, demand), layouts, layouts.len()) is Ok
            <==> within_stock_and_demand(layouts, stock, demand),
{
    let n = layouts.len();
    if within_stock_and_demand(layouts, stock, demand) {
        lemma_layouts_fit(stock, demand, layouts, n);
    }
    if layouts_imported(import_start(stock, demand), layouts, n) is Ok {
        let s = layouts_imported(import_start(stock, demand), layouts, n)->Ok_0;
        lemma_layouts_known(stock, demand, layouts, n);
        lemma_import_adds_up(stock, demand, layouts, n);
        lemma_import_is_faithful(stock, demand, layouts, n);
        assert forall|b: usize| b < stock.len() implies #[trigger] bins_opened(
            plan_of(layouts, n),
            b,
        ) <= stock[b as int] by {
            assert(bins_opened(s.plan, b) + s.stock[b as int] == stock[b as int]);
        }
        assert forall|id: usize| id < demand.len() implies #[trigger] copies_placed(
            plan_of(layouts, n),
            id,
        ) <= demand[id as int] by {
            assert(copies_placed(s.plan, id) + s.demand[id as int] == demand[id as int]);
        }
    }
}

proof fn lemma_filled_layouts(layouts: Seq<ImportLayout>, m: nat)
    requires
        m <= layouts.len(),
        forall|i: int| 0 <= i < layouts.len() ==> (#[trigger] layouts[i]).items@.len() > 0,
    ensures
        filled_layouts(layouts, m) == Seq::new(
            m,
            |i: int| (layouts[i].bin_id, layouts[i].items@),
        ),
    decreases m,
{
    if m > 0 {
        lemma_filled_layouts(layouts, (m - 1) as nat);
        assert(layouts[m - 1].items@.len() > 0);
    }
    assert(filled_layouts(layouts, m) =~= Seq::new(
        m,
        |i: int| (layouts[i].bin_id, layouts[i].items@),
    ));
}

/// **A solution that was written out can be started from**: layouts that hold items, within the stock
/// and the demand, are imported without an error, and carrying out the plan gives back the bin type
/// and the items of every one of them, in order.
pub proof fn lemma_import_round_trip(
    stock: Seq<usize>,
    demand: Seq<usize>,
    layouts: Seq<ImportLayout>,
)
    requires
        within_stock_and_demand(layouts, stock, demand),
        forall|i: int| 0 <= i < layouts.len() ==> (#[trigger] layouts[i]).items@.len() > 0,
    ensures
        layouts_imported(import_start(stock, demand), layouts, layouts.len()) is Ok,
        carried_out(
            (layouts_imported(import_start(stock, demand), layouts, layouts.len())->Ok_0).plan,
        ) == Seq::new(layouts.len(), |i: int| (layouts[i].bin_id, layouts[i].items@)),
{
    lemma_layouts_fit(stock, demand, layouts, layouts.len());
    lemma_import_is_faithful(stock, demand, layouts, layouts.len());
    lemma_filled_layouts(layouts, layouts.len());
}

/// The message about a solution that cannot be started from.
pub open spec fn import_message(e: ImportError, n_bins: usize, demand: usize) -> Seq<char> {
    match e {
        ImportError::UnknownBin { layout, bin_id } => "layout "@ + text::decimal(layout as nat)
            + " references unknown bin id "@ + text::decimal(bin_id as nat) + " (instance has "@
            + text::decimal(n_bins as nat) + " bin types)"@,
        ImportError::NoStock { layout, bin_id } => "layout "@ + text::decimal(layout as nat)
            + ": no stock left for bin type "@ + text::decimal(bin_id as nat),
        ImportError::UnknownItem { layout, item_id } => "layout "@ + text::decimal(layout as nat)
            + " references unknown item id "@ + text::decimal(item_id as nat),
        ImportError::TooMany { layout, item_id } => "layout "@ + text::decimal(layout as nat)
            + " places more copies of item "@ + text::decimal(item_id as nat)
            + " than the instance demands ("@ + text::decimal(demand as nat) + ")"@,
    }
}

impl ImportError {
    /// The message for the user. `n_bins` is the number of bin types, `demand` how often the item
    /// is demanded.
    pub fn to_string(&self, n_bins: usize, demand: usize) -> (s: String)
        ensures
            s@ == import_message(*self, n_bins, demand),
    {
        let mut s = String::new();
        s.append("layout ");
        match *self {
            ImportError::UnknownBin { layout, bin_id } => {
                push_decimal(&mut s, layout as u64);
                s.append(" references unknown bin id ");
                push_decimal(&mut s, bin_id as u64);
                s.append(" (instance has ");
                push_decimal(&mut s, n_bins as u64);
                s.append(" bin types)");
            },
            ImportError::NoStock { layout, bin_id } => {
                push_decimal(&mut s, layout as u64);
                s.append(": no stock left for bin type ");
                push_decimal(&mut s, bin_id as u64);
            },
            ImportError::UnknownItem { layout, item_id } => {
                push_decimal(&mut s, layout as u64);
                s.append(" references unknown item id ");
                push_decimal(&mut s, item_id as u64);
            },
            ImportError::TooMany { layout, item_id } => {
                push_decimal(&mut s, layout as u64);
                s.append(" places more copies of item ");
                push_decimal(&mut s, item_id as u64);
                s.append(" than the instance demands (");
                push_decimal(&mut s, demand as u64);
                s.append(")");
            },
        }
        assert(s@ =~= import_message(*self, n_bins, demand));
        s
    }
}

/// The first `m` of the texts, separated by commas.
pub open spec fn comma_list(list: Seq<String>, m: nat) -> Seq<char>
    decreases m,
{
    if m == 0 {
        seq![]
    } else if m == 1 {
        list[0]@
    } else {
        comma_list(list, (m - 1) as nat) + ", "@ + list[m - 1]@
    }
}

/// A solution in one line: its cost, the number of its bins, its density, and the density of each
/// bin. The densities come as text.
pub fn summarize(cost: u64, density: &str, per_bin: &Vec<String>) -> (s: String)
    ensures
        s@ == "cost: "@ + text::decimal(cost as nat) + ", #bins: "@ + text::decimal(per_bin@.len())
            + ", density: "@ + density@ + "%, per-bin: ["@ + comma_list(per_bin@, per_bin@.len())
            + "]"@,
{
    let mut s = String::new();
    s.append("cost: ");
    push_decimal(&mut s, cost);
    s.append(", #bins: ");
    push_decimal(&mut s, per_bin.len() as u64);
    s.append(", density: ");
    s.append(density);
    s.append("%, per-bin: [");
    let ghost head = s@;
    let mut i: usize = 0;
    assert(s@ =~= head + comma_list(per_bin@, 0));
    while i < per_bin.len()
        invariant
            i <= per_bin@.len(),
            s@ == head + comma_list(per_bin@, i as nat),
        decreases per_bin@.len() - i,
    {
        if i > 0 {
            s.append(", ");
        }
        s.append(per_bin[i].as_str());
        i = i + 1;
        assert(s@ =~= head + comma_list(per_bin@, i as nat));
    }
    s.append("]");
    assert(s@ =~= "cost: "@ + text::decimal(cost as nat) + ", #bins: "@ + text::decimal(
        per_bin@.len(),
    ) + ", density: "@ + density@ + "%, per-bin: ["@ + comma_list(per_bin@, per_bin@.len()) + "]"@);
    s
}

/// A drawing that a report writes.
#[derive(Debug, Clone)]
pub struct SvgFile {
    /// Position of the bin that it shows.
    pub bin: usize,
    /// The directory that it is written to.
    pub dir: String,
    /// Its title, which is its name without the extension `.svg`.
    pub name: String,
    /// It is worth a line in the log.
    pub announced: bool,
}

/// A drawing, as a mathematical value.
#[verifier::ext_equal]
pub struct SvgFileView {
    /// Position of the bin that it shows.
    pub bin: nat,
    /// The directory that it is written to.
    pub dir: Seq<char>,
    /// Its title.
    pub name: Seq<char>,
    /// It is worth a line in the log.
    pub announced: bool,
}

impl View for SvgFile {
    type V = SvgFileView;

    open spec fn view(&self) -> SvgFileView {
        SvgFileView {
            bin: self.bin as nat,
            dir: self.dir@,
            name: self.name@,
            announced: self.announced,
        }
    }
}

/// The drawings of a list, as mathematical values.
pub open spec fn file_views(files: Seq<SvgFile>) -> Seq<SvgFileView> {
    files.map_values(|f: SvgFile| f@)
}

/// Where drawings go: a directory, and the beginning of their names.
#[derive(Debug, Clone)]
pub struct SvgTarget {
    /// The directory.
    pub dir: String,
    /// The beginning of their names.
    pub stem: String,
}

/// Receives the solutions that are reported during a run over bins.
pub trait BPSolutionListener {
    /// Whether another report can be taken.
    spec fn ready(&self) -> bool;

    /// Takes a report of a solution with the given cost and number of bins, and returns the
    /// drawings that it calls for.
    fn report(&mut self, report: ReportType, cost: u64, n_bins: usize) -> Vec<SvgFile>
        requires
            old(self).ready(),
    ;
}

/// A listener that does nothing.
pub struct DummyBPSolListener;

impl BPSolutionListener for DummyBPSolListener {
    open spec fn ready(&self) -> bool {
        true
    }

    fn report(&mut self, _report: ReportType, _cost: u64, _n_bins: usize) -> (r: Vec<SvgFile>)
        ensures
            r@.len() == 0,
    {
        Vec::new()
    }
}

/// Asks for drawings of the solutions that are reported, one for each bin.
pub struct BPSvgExporter {
    /// How many solutions on the way have been drawn.
    pub svg_counter: usize,
    /// Where the result of the run is drawn, if it is.
    pub final_path: Option<SvgTarget>,
    /// The directory for all solutions on the way, if they are drawn.
    pub intermediate_dir: Option<String>,
    /// The directory for the drawing of the current solution, if it is drawn.
    pub live_dir: Option<String>,
}

/// The mark of a kind of report in the name of a drawing.
pub open spec fn suffix_of(report: ReportType) -> Seq<char> {
    match report {
        ReportType::CmprFeas => "cmpr"@,
        ReportType::ExplInfeas => "expl_nf"@,
        ReportType::ExplFeas => "expl_f"@,
        ReportType::Final => "final"@,
        ReportType::ExplImproving => "expl_i"@,
    }
}

/// The beginning of the names of the drawings of a solution on the way.
pub open spec fn stem_of(counter: nat, cost: u64, report: ReportType) -> Seq<char> {
    text::decimal(counter) + "_"@ + text::decimal(cost as nat) + "_"@ + suffix_of(report)
}

/// The drawings of all bins of a solution.
pub open spec fn bin_files(dir: Seq<char>, stem: Seq<char>, n_bins: nat, announced: bool) -> Seq<
    SvgFileView,
> {
    Seq::new(
        n_bins,
        |i: int|
            SvgFileView {
                bin: i as nat,
                dir,
                name: stem + "_bin"@ + text::decimal(i as nat),
                announced,
            },
    )
}

/// The drawings of the current solution.
pub open spec fn live_files(live_dir: Option<String>, n_bins: nat) -> Seq<SvgFileView> {
    match live_dir {
        Some(dir) => bin_files(dir@, ".live_solution"@, n_bins, false),
        None => seq![],
    }
}

/// The drawings of a solution on the way: every kind of report has them but one.
pub open spec fn intermediate_files(
    intermediate_dir: Option<String>,
    counter: nat,
    report: ReportType,
    cost: u64,
    n_bins: nat,
) -> Seq<SvgFileView> {
    match intermediate_dir {
        Some(dir) => if report != ReportType::ExplImproving {
            bin_files(dir@, stem_of(counter, cost, report), n_bins, false)
        } else {
            seq![]
        },
        None => seq![],
    }
}

/// How many solutions on the way have been drawn after a report: one more if the report was drawn.
pub open spec fn counter_after(
    counter: nat,
    intermediate_dir: Option<String>,
    report: ReportType,
) -> nat {
    if intermediate_dir is Some && report != ReportType::ExplImproving {
        counter + 1
    } else {
        counter
    }
}

/// The drawings of the result of the run.
pub open spec fn final_files(final_path: Option<SvgTarget>, report: ReportType, n_bins: nat) -> Seq<
    SvgFileView,
> {
    match final_path {
        Some(target) => if report == ReportType::Final {
            bin_files(target.dir@, target.stem@, n_bins, true)
        } else {
            seq![]
        },
        None => seq![],
    }
}

fn push_bin_files(files: &mut Vec<SvgFile>, dir: &str, stem: &str, n_bins: usize, announced: bool)
    ensures
        file_views(final(files)@) == file_views(old(files)@) + bin_files(
            dir@,
            stem@,
            n_bins as nat,
            announced,
        ),
{
    let ghost all = bin_files(dir@, stem@, n_bins as nat, announced);
    let mut i: usize = 0;
    assert(file_views(files@) =~= file_views(old(files)@) + all.take(0));
    while i < n_bins
        invariant
            i <= n_bins,
            all == bin_files(dir@, stem@, n_bins as nat, announced),
            file_views(files@) == file_views(old(files)@) + all.take(i as int),
        decreases n_bins - i,
    {
        let mut name = String::new();
        name.append(stem);
        name.append("_bin");
        push_decimal(&mut name, i as u64);
        let ghost before = files@;
        let file = SvgFile { bin: i, dir: dir.to_owned(), name, announced };
        proof {
            assert(file@.name =~= all[i as int].name);
            assert(file@ =~= all[i as int]);
        }
        files.push(file);
        proof {
            assert(file_views(files@) =~= file_views(before).push(file@));
            assert(all.take(i + 1) =~= all.take(i as int).push(all[i as int]));
        }
        i = i + 1;
    }
    assert(all.take(i as int) =~= all);
}

fn suffix(report: ReportType) -> (s: &'static str)
    ensures
        s@ == suffix_of(report),
{
    match report {
        ReportType::CmprFeas => "cmpr",
        ReportType::ExplInfeas => "expl_nf",
        ReportType::ExplFeas => "expl_f",
        ReportType::Final => "final",
        ReportType::ExplImproving => "expl_i",
    }
}

impl BPSvgExporter {
    /// An exporter that has drawn nothing yet.
    pub fn new(
        final_path: Option<SvgTarget>,
        intermediate_dir: Option<String>,
        live_dir: Option<String>,
    ) -> (r: BPSvgExporter)
        ensures
            r.svg_counter == 0,
            r.final_path == final_path,
            r.intermediate_dir == intermediate_dir,
            r.live_dir == live_dir,
    {
        BPSvgExporter { svg_counter: 0, final_path, intermediate_dir, live_dir }
    }
}

impl BPSolutionListener for BPSvgExporter {
    open spec fn ready(&self) -> bool {
        self.svg_counter < usize::MAX
    }

    fn report(&mut self, report: ReportType, cost: u64, n_bins: usize) -> (r: Vec<SvgFile>)
        ensures
            file_views(r@) == live_files(old(self).live_dir, n_bins as nat) + intermediate_files(
                old(self).intermediate_dir,
                old(self).svg_counter as nat,
                report,
                cost,
                n_bins as nat,
            ) + final_files(old(self).final_path, report, n_bins as nat),
            final(self).svg_counter == counter_after(
                old(self).svg_counter as nat,
                old(self).intermediate_dir,
                report,
            ),
            final(self).svg_counter == old(self).svg_counter + if old(self).intermediate_dir is Some
                && report != ReportType::ExplImproving {
                1nat
            } else {
                0
            },
            final(self).final_path == old(self).final_path,
            final(self).intermediate_dir == old(self).intermediate_dir,
            final(self).live_dir == old(self).live_dir,
    {
        let mut files: Vec<SvgFile> = Vec::new();
        assert(file_views(files@) =~= seq![]);
        if let Some(dir) = &self.live_dir {
            push_bin_files(&mut files, dir.as_str(), ".live_solution", n_bins, false);
        }
        assert(file_views(files@) =~= live_files(old(self).live_dir, n_bins as nat));
        let ghost live = file_views(files@);
        let mut drawn: bool = false;
        if let Some(dir) = &self.intermediate_dir {
            if report != ReportType::ExplImproving {
                let mut stem = String::new();
                push_decimal(&mut stem, self.svg_counter as u64);
                stem.append("_");
                push_decimal(&mut stem, cost);
                stem.append("_");
                stem.append(suffix(report));
                assert(stem@ =~= stem_of(self.svg_counter as nat, cost, report));
                push_bin_files(&mut files, dir.as_str(), stem.as_str(), n_bins, false);
                drawn = true;
            }
        }
        assert(file_views(files@) =~= live + intermediate_files(
            old(self).intermediate_dir,
            old(self).svg_counter as nat,
            report,
            cost,
            n_bins as nat,
        ));
        if drawn {
            self.svg_counter = self.svg_counter + 1;
        }
        let ghost both = file_views(files@);
        if let Some(target) = &self.final_path {
            if report == ReportType::Final {
                push_bin_files(&mut files, target.dir.as_str(), target.stem.as_str(), n_bins, true);
            }
        }
        assert(file_views(files@) =~= both + final_files(
            old(self).final_path,
            report,
            n_bins as nat,
        ));
        files
    }
}

/// **Only the result of the run is drawn as such**: no other report asks for a drawing that is worth
/// a line in the log.
pub proof fn lemma_only_the_result_is_announced(
    live_dir: Option<String>,
    intermediate_dir: Option<String>,
    final_path: Option<SvgTarget>,
    counter: nat,
    report: ReportType,
    cost: u64,
    n_bins: nat,
    i: int,
)
    requires
        ({
            let files = live_files(live_dir, n_bins) + intermediate_files(
                intermediate_dir,
                counter,
                report,
                cost,
                n_bins,
            ) + final_files(final_path, report, n_bins);
            0 <= i < files.len() && files[i].announced
        }),
    ensures
        report == ReportType::Final,
{
}

/// **No drawing replaces an earlier one**: two solutions on the way are drawn under different names.
pub proof fn lemma_drawings_do_not_collide(
    a: nat,
    cost_a: u64,
    report_a: ReportType,
    b: nat,
    cost_b: u64,
    report_b: ReportType,
    rest_a: Seq<char>,
    rest_b: Seq<char>,
)
    requires
        a != b,
    ensures
        stem_of(a, cost_a, report_a) + rest_a != stem_of(b, cost_b, report_b) + rest_b,
{
    reveal_strlit("_");
    let (s, t) = (stem_of(a, cost_a, report_a) + rest_a, stem_of(b, cost_b, report_b) + rest_b);
    let (x, y) = (text::decimal(a), text::decimal(b));
    text::lemma_decimal_is_plain(a);
    text::lemma_decimal_is_plain(b);
    assert(s[x.len() as int] == '_');
    assert(t[y.len() as int] == '_');
    if s == t {
        if x.len() < y.len() {
            assert(t[x.len() as int] == y[x.len() as int]);
            assert(text::is_digit(y[x.len() as int]));
        } else if y.len() < x.len() {
            assert(s[y.len() as int] == x[y.len() as int]);
            assert(text::is_digit(x[y.len() as int]));
        } else {
            assert forall|i: int| 0 <= i < x.len() implies x[i] == y[i] by {
                assert(s[i] == x[i] && t[i] == y[i]);
            }
            assert(x =~= y);
            text::lemma_decimal_injective(a, b);
        }
    }
}

/// **A declaration is accepted exactly if every part of it is in order**: two dimensions that are finite and
/// positive numbers, a number of copies above zero if one is given, a cost that is a number if one is given,
/// and nothing more.
pub proof fn lemma_when_a_declaration_is_accepted(
    s: Seq<char>,
    width: Option<Scalar>,
    height: Option<Scalar>,
)
    ensures
        ({
            let parts = text::fields(s, ':');
            let stock = text::unsigned_value(text::trimmed(parts[1]), usize::MAX as nat);
            let cost = text::unsigned_value(text::trimmed(parts[2]), u64::MAX as nat);
            bin_spec_complaint(s, width, height) is None <==> {
                &&& dimension_texts(s) is Some
                &&& width matches Some(w) && w.finite() && w.value() > 0
                &&& height matches Some(h) && h.finite() && h.value() > 0
                &&& parts.len() >= 2 ==> (stock matches Some(n) && n > 0)
                &&& parts.len() >= 3 ==> cost is Some
                &&& parts.len() <= 3
            }
        }),
{
}

/// **What is left out has its default**: without a number of copies or a cost, the declared bin type has the
/// usual ones, and with them it has the given ones.
pub proof fn lemma_what_is_left_out_has_its_default(
    bin: BinSpec,
    s: Seq<char>,
    width: Option<Scalar>,
    height: Option<Scalar>,
)
    requires
        is_declared_bin(bin, s, width, height),
    ensures
        ({
            let parts = text::fields(s, ':');
            &&& Some(bin.width) == width && Some(bin.height) == height
            &&& parts.len() < 2 ==> bin.stock == DEFAULT_BIN_STOCK
            &&& parts.len() < 3 ==> bin.cost == DEFAULT_BIN_COST
            &&& parts.len() >= 2 ==> text::unsigned_value(
                text::trimmed(parts[1]),
                usize::MAX as nat,
            ) == Some(bin.stock as nat)
            &&& parts.len() >= 3 ==> text::unsigned_value(text::trimmed(parts[2]), u64::MAX as nat)
                == Some(bin.cost as nat)
        }),
{
}

proof fn lemma_item_refusals_are_true(
    s: ImportState,
    start: ImportState,
    layout: usize,
    l: ImportLayout,
    j: nat,
)
    requires
        adds_up(s, start),
        l.bin_id < s.stock.len(),
        s.stock[l.bin_id as int] > 0,
        j <= l.items@.len(),
    ensures
        items_imported(s, layout as int, l, j) matches Err(e) ==> match e {
            ImportError::UnknownItem { layout: k, item_id } => k == layout && l.items@.contains(
                item_id,
            ) && item_id >= start.demand.len(),
            ImportError::TooMany { layout: k, item_id } => k == layout && l.items@.contains(item_id)
                && item_id < start.demand.len() && copies_placed(
                s.plan + replays(layout as int, l, l.items@.len()),
                item_id,
            ) > start.demand[item_id as int],
            _ => false,
        },
    decreases j,
{
    if j > 0 {
        lemma_item_refusals_are_true(s, start, layout, l, (j - 1) as nat);
        lemma_items_add_up(s, start, layout as int, l, (j - 1) as nat);
        lemma_items_in_order(s, layout as int, l, (j - 1) as nat);
        if let Ok(t) = items_imported(s, layout as int, l, (j - 1) as nat) {
            let p = replay_of(layout as int, l, j - 1);
            let id = p.item_id;
            assert(l.items@.contains(id)) by {
                assert(l.items@[j - 1] == id);
            }
            if id < t.demand.len() && t.demand[id as int] == 0 {
                let all = s.plan + replays(layout as int, l, l.items@.len());
                let n = s.plan.len() + j;
                assert(all.take(n as int) =~= t.plan.push(p));
                assert(t.plan.push(p).drop_last() =~= t.plan);
                assert(copies_placed(t.plan, id) + t.demand[id as int] == start.demand[id as int]);
                lemma_counts_grow(all, n as int, id);
            }
        }
    }
}

/// **A solution is refused for a reason that is true**: the layout that is named asks for a bin type that
/// there is not, or for one that the layouts before it have used up; or it holds an item that there is not,
/// or one that is placed, up to this layout, more often than it is demanded.
pub proof fn lemma_import_refusals_are_true(
    stock: Seq<usize>,
    demand: Seq<usize>,
    layouts: Seq<ImportLayout>,
    m: nat,
)
    requires
        m <= layouts.len() <= usize::MAX,
    ensures
        layouts_imported(import_start(stock, demand), layouts, m) matches Err(e) ==> match e {
            ImportError::UnknownBin { layout, bin_id } => layout < m && layouts[layout as int].bin_id
                == bin_id && bin_id >= stock.len(),
            ImportError::NoStock { layout, bin_id } => layout < m && layouts[layout as int].bin_id
                == bin_id && layouts[layout as int].items@.len() > 0 && bin_id < stock.len()
                && bins_opened(plan_of(layouts, layout as nat), bin_id) == stock[bin_id as int],
            ImportError::UnknownItem { layout, item_id } => layout < m
                && layouts[layout as int].items@.contains(item_id) && item_id >= demand.len(),
            ImportError::TooMany { layout, item_id } => layout < m
                && layouts[layout as int].items@.contains(item_id) && item_id < demand.len()
                && copies_placed(plan_of(layouts, (layout + 1) as nat), item_id)
                > demand[item_id as int],
        },
    decreases m,
{
    if m > 0 {
        let start = import_start(stock, demand);
        let k = (m - 1) as nat;
        lemma_import_refusals_are_true(stock, demand, layouts, k);
        lemma_import_adds_up(stock, demand, layouts, k);
        lemma_import_is_faithful(stock, demand, layouts, k);
        if let Ok(s) = layouts_imported(start, layouts, k) {
            let l = layouts[m - 1];
            if l.bin_id < s.stock.len() && l.items@.len() > 0 {
                if s.stock[l.bin_id as int] > 0 {
                    lemma_item_refusals_are_true(s, start, k as usize, l, l.items@.len());
                } else {
                    assert(bins_opened(s.plan, l.bin_id) + s.stock[l.bin_id as int]
                        == start.stock[l.bin_id as int]);
                }
            }
        }
    }
}

/// **Every bin of a report is drawn, everywhere it is asked for**: once for the live view if there is one,
/// once on the way unless the report is only one of progress, and once for the result if it is the result.
pub proof fn lemma_every_bin_is_drawn(
    live_dir: Option<String>,
    intermediate_dir: Option<String>,
    final_path: Option<SvgTarget>,
    counter: nat,
    report: ReportType,
    cost: u64,
    n_bins: nat,
    i: int,
)
    requires
        0 <= i < n_bins,
    ensures
        ({
            let live = live_files(live_dir, n_bins);
            let way = intermediate_files(intermediate_dir, counter, report, cost, n_bins);
            let end = final_files(final_path, report, n_bins);
            &&& match live_dir {
                Some(dir) => live.len() == n_bins && live[i].bin == i && live[i].dir == dir@
                    && !live[i].announced,
                None => live.len() == 0,
            }
            &&& match intermediate_dir {
                Some(dir) if !(report is ExplImproving) => way.len() == n_bins && way[i].bin == i
                    && way[i].dir == dir@ && !way[i].announced,
                _ => way.len() == 0,
            }
            &&& match final_path {
                Some(target) if report is Final => end.len() == n_bins && end[i].bin == i && end[i].dir
                    == target.dir@ && end[i].announced,
                _ => end.len() == 0,
            }
        }),
{
}

/// **Declared bins keep their order and their size**: the bin types of an instance without bins count up from
/// zero, each with the width, the height, the stock and the cost that were declared for it.
pub proof fn lemma_declared_bins_keep_their_order(bins: Seq<BinSpec>, i: int)
    requires
        0 <= i < bins.len() <= usize::MAX,
    ensures
        ext_bins(bins).len() == bins.len(),
        ext_bins(bins)[i].id == i,
        ext_bins(bins)[i].width == bins[i].width,
        ext_bins(bins)[i].height == bins[i].height,
        ext_bins(bins)[i].stock == bins[i].stock,
        ext_bins(bins)[i].cost == bins[i].cost,
{
}

/// **Every text is listed**, one after the other.
pub proof fn lemma_every_text_is_listed(list: Seq<String>, m: nat)
    requires
        m <= list.len(),
    ensures
        comma_list(list, m) == text::joined_by(
            list.take(m as int).map_values(|s: String| s@),
            ", "@,
        ),
    decreases m,
{
    let f = |s: String| s@;
    let parts = list.take(m as int).map_values(f);
    if m > 0 {
        lemma_every_text_is_listed(list, (m - 1) as nat);
        text::lemma_joined_last(parts, ", "@);
        assert(parts.drop_last() =~= list.take(m - 1).map_values(f));
        assert(parts.last() == f(list[m - 1]));
    }
}

/// **Every kind of report has a mark of its own.**
pub proof fn lemma_reports_have_their_own_marks(a: ReportType, b: ReportType)
    requires
        suffix_of(a) == suffix_of(b),
    ensures
        a == b,
{
    reveal_strlit("cmpr");
    reveal_strlit("expl_nf");
    reveal_strlit("expl_f");
    reveal_strlit("final");
    reveal_strlit("expl_i");
    let (s, t) = (suffix_of(a), suffix_of(b));
    assert(s.len() == t.len());
    assert(s[0] == t[0]);
    if s.len() >= 6 {
        assert(s[5] == t[5]);
    }
}

/// **What was drawn is not drawn over**: after a report that was drawn on the way, no later one is drawn under
/// the same name, and one that was not drawn uses up no number.
pub proof fn lemma_drawn_once(
    counter: nat,
    dir: Option<String>,
    report: ReportType,
    cost: u64,
    later: nat,
    later_report: ReportType,
    later_cost: u64,
    n_bins: nat,
    i: int,
    j: int,
)
    requires
        later >= counter_after(counter, dir, report),
        0 <= i < intermediate_files(dir, counter, report, cost, n_bins).len(),
        0 <= j < intermediate_files(dir, later, later_report, later_cost, n_bins).len(),
    ensures
        intermediate_files(dir, counter, report, cost, n_bins)[i].name != intermediate_files(
            dir,
            later,
            later_report,
            later_cost,
            n_bins,
        )[j].name,
        counter_after(counter, dir, ReportType::ExplImproving) == counter,
        counter_after(counter, None, report) == counter,
{
    let (a, b) = (
        intermediate_files(dir, counter, report, cost, n_bins)[i].name,
        intermediate_files(dir, later, later_report, later_cost, n_bins)[j].name,
    );
    let (x, y) = ("_bin"@ + text::decimal(i as nat), "_bin"@ + text::decimal(j as nat));
    lemma_drawings_do_not_collide(
        counter,
        cost,
        report,
        later,
        later_cost,
        later_report,
        x,
        y,
    );
    assert(a =~= stem_of(counter, cost, report) + x);
    assert(b =~= stem_of(later, later_cost, later_report) + y);
}

} // verus!
