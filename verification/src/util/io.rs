//! What the command line and the input files have to satisfy.
//!
//! Numbers with a fraction are read by the caller, from the text without the white space around it;
//! which of them are accepted is decided here. Instances are read from their JSON text.
use crate::config::MIN_SHEET_GAP_BITS;
use crate::scalar::Scalar;
use crate::text;
use crate::text::{push_decimal, trim};
use crate::util::rotations;
use crate::util::rotations::rotation_is_allowed;
use crate::util::verify;
use crate::util::verify::{check_demand, spp_demand, spp_placed};
use jagua_rs::probs::spp::io::ext_repr::ExtSPInstance;
use vstd::prelude::*;

verus! {

/// A quoted text, followed by what is wrong with it.
pub open spec fn complaint(s: Seq<char>, about: Seq<char>) -> Seq<char> {
    "`"@ + s + about
}

fn complain(s: &str, about: &str) -> (r: String)
    ensures
        r@ == complaint(s@, about@),
{
    let mut r = String::new();
    r.append("`");
    r.append(s);
    r.append(about);
    assert(r@ =~= complaint(s@, about@));
    r
}

/// Why a number is refused, if it is: it has to be a number, and a finite one.
pub open spec fn finite_complaint(s: Seq<char>, parsed: Option<Scalar>) -> Option<Seq<char>> {
    match parsed {
        None => Some(complaint(s, "` is not a number"@)),
        Some(v) => if v.finite() {
            None
        } else {
            Some(complaint(s, "` is not a finite number"@))
        },
    }
}

/// What the parser of an argument returns: the number, or the complaint about it.
pub open spec fn parses_to(
    r: Result<Scalar, String>,
    parsed: Option<Scalar>,
    about: Option<Seq<char>>,
) -> bool {
    match about {
        None => parsed matches Some(v) && r == Ok::<Scalar, String>(v),
        Some(message) => r matches Err(e) && e@ == message,
    }
}

/// Accepts finite numbers. `parsed` is what the text `s` denotes, if it denotes a number.
pub fn parse_finite_f32(s: &str, parsed: Option<Scalar>) -> (r: Result<Scalar, String>)
    ensures
        parses_to(r, parsed, finite_complaint(s@, parsed)),
{
    match parsed {
        None => Err(complain(s, "` is not a number")),
        Some(v) => if v.is_finite() {
            Ok(v)
        } else {
            Err(complain(s, "` is not a finite number"))
        },
    }
}

/// Why a number is refused where a positive one is asked for.
pub open spec fn positive_complaint(s: Seq<char>, parsed: Option<Scalar>) -> Option<Seq<char>> {
    match finite_complaint(s, parsed) {
        Some(message) => Some(message),
        None => if (Scalar { bits: 0 }).less(parsed->0) {
            None
        } else {
            Some(complaint(s, "` must be greater than 0"@))
        },
    }
}

/// Accepts finite numbers greater than zero.
pub fn parse_positive_f32(s: &str, parsed: Option<Scalar>) -> (r: Result<Scalar, String>)
    ensures
        parses_to(r, parsed, positive_complaint(s@, parsed)),
{
    match parse_finite_f32(s, parsed) {
        Ok(v) => {
            let zero = Scalar { bits: 0 };
            if zero.lt(v) {
                Ok(v)
            } else {
                Err(complain(s, "` must be greater than 0"))
            }
        },
        Err(e) => Err(e),
    }
}

/// Why a number is refused where one that is not negative is asked for.
pub open spec fn non_negative_complaint(s: Seq<char>, parsed: Option<Scalar>) -> Option<Seq<char>> {
    match finite_complaint(s, parsed) {
        Some(message) => Some(message),
        None => if (Scalar { bits: 0 }).less_or_equal(parsed->0) {
            None
        } else {
            Some(complaint(s, "` must not be negative"@))
        },
    }
}

/// Accepts finite numbers that are not negative.
pub fn parse_non_negative_f32(s: &str, parsed: Option<Scalar>) -> (r: Result<Scalar, String>)
    ensures
        parses_to(r, parsed, non_negative_complaint(s@, parsed)),
{
    match parse_finite_f32(s, parsed) {
        Ok(v) => {
            let zero = Scalar { bits: 0 };
            if zero.le(v) {
                Ok(v)
            } else {
                Err(complain(s, "` must not be negative"))
            }
        },
        Err(e) => Err(e),
    }
}

/// Why a number is refused as the thickness of a wall.
pub open spec fn gap_complaint(s: Seq<char>, parsed: Option<Scalar>) -> Option<Seq<char>> {
    match finite_complaint(s, parsed) {
        Some(message) => Some(message),
        None => if (Scalar { bits: MIN_SHEET_GAP_BITS }).less_or_equal(parsed->0) {
            None
        } else {
            Some(
                complaint(
                    s,
                    "` is too thin: a sheet wall must be at least 1 mm wide. A zero-width wall is not representable as a collision hazard, so it would be dropped and items would be free to straddle the sheet boundaries. The gap is virtual (the sheets are separate physical objects), so it costs no material"@,
                ),
            )
        },
    }
}

/// Accepts finite numbers of at least 1 mm.
pub fn parse_sheet_gap(s: &str, parsed: Option<Scalar>) -> (r: Result<Scalar, String>)
    ensures
        parses_to(r, parsed, gap_complaint(s@, parsed)),
{
    match parse_finite_f32(s, parsed) {
        Ok(v) => {
            let least = Scalar { bits: MIN_SHEET_GAP_BITS };
            if least.le(v) {
                Ok(v)
            } else {
                Err(
                    complain(
                        s,
                        "` is too thin: a sheet wall must be at least 1 mm wide. A zero-width wall is not representable as a collision hazard, so it would be dropped and items would be free to straddle the sheet boundaries. The gap is virtual (the sheets are separate physical objects), so it costs no material",
                    ),
                )
            }
        },
        Err(e) => Err(e),
    }
}

/// **No argument is ever NaN or infinite**: whatever the parsers accept is finite.
pub proof fn lemma_accepted_numbers_are_finite(s: Seq<char>, parsed: Option<Scalar>)
    ensures
        finite_complaint(s, parsed) is None ==> parsed is Some && parsed->0.finite(),
        positive_complaint(s, parsed) is None ==> parsed is Some && parsed->0.finite(),
        non_negative_complaint(s, parsed) is None ==> parsed is Some && parsed->0.finite(),
        gap_complaint(s, parsed) is None ==> parsed is Some && parsed->0.finite()
            && positive_complaint(s, parsed) is None,
{
    if gap_complaint(s, parsed) is None {
        crate::scalar::lemma_rank_is_value_order(
            Scalar { bits: 0 },
            Scalar { bits: MIN_SHEET_GAP_BITS },
        );
    }
}

/// The environment variable that gives a separation if the command line gives none.
pub const MIN_SEP_ENV_VAR: &'static str = "SPARROW_MIN_SEP";

/// Where a separation that is not a finite number comes from.
#[derive(Debug, Clone, Copy, PartialEq, Eq, Structural)]
pub enum SeparationError {
    /// From the environment.
    Environment,
    /// From the command line.
    Argument,
}

impl SeparationError {
    /// The message for the user. `value` is the value that was refused, quoted if it comes from the
    /// environment.
    pub fn to_string(&self, value: &str) -> (s: String)
        ensures
            s@ == match *self {
                SeparationError::Environment => "SPARROW_MIN_SEP="@ + value@
                    + " is not a finite number"@,
                SeparationError::Argument => "the minimum item separation ("@ + value@
                    + ") is not a finite number"@,
            },
    {
        let mut s = String::new();
        match *self {
            SeparationError::Environment => {
                s.append("SPARROW_MIN_SEP=");
                s.append(value);
                s.append(" is not a finite number");
                assert(s@ =~= "SPARROW_MIN_SEP="@ + value@ + " is not a finite number"@);
            },
            SeparationError::Argument => {
                s.append("the minimum item separation (");
                s.append(value);
                s.append(") is not a finite number");
                assert(s@ =~= "the minimum item separation ("@ + value@
                    + ") is not a finite number"@);
            },
        }
        s
    }
}

/// Whether a text holds anything but white space.
pub open spec fn says_something(s: Seq<char>) -> bool {
    exists|i: int| 0 <= i < s.len() && !text::white_space(#[trigger] s[i])
}

/// The separation that is asked for, before it is known whether it is one.
pub open spec fn resolved_separation(
    cli_value: Option<Scalar>,
    env_raw: Option<Seq<char>>,
    env_value: Option<Scalar>,
    config_default: Option<Scalar>,
) -> Result<Option<Scalar>, SeparationError> {
    let env_set = env_raw matches Some(raw) && says_something(raw);
    if env_set && !(env_value matches Some(v) && v.finite()) {
        Err(SeparationError::Environment)
    } else {
        let asked = if cli_value is Some {
            cli_value
        } else if env_set {
            env_value
        } else {
            None
        };
        match asked {
            Some(v) => if !v.finite() {
                Err(SeparationError::Argument)
            } else if (Scalar { bits: 0 }).less(v) {
                Ok(Some(v))
            } else {
                Ok(None)
            },
            None => Ok(config_default),
        }
    }
}

/// The text of an optional string, as a mathematical value.
pub open spec fn optional_text(s: Option<&str>) -> Option<Seq<char>> {
    match s {
        Some(t) => Some(t@),
        None => None,
    }
}

fn is_set(s: &str) -> (r: bool)
    ensures
        r == says_something(s@),
{
    let t = trim(s);
    let n: usize = t.unicode_len();
    proof {
        let (a, b) = choose|a: int, b: int| #[trigger] text::trims_at(s@, t@, a, b);
        if n > 0 {
            assert(t@[0] == s@[a]);
        }
    }
    n > 0
}

/// The minimum separation to use: that of the command line, or else that of the environment, or else
/// the default. A separation that is not positive disables it.
///
/// `env_value` is what the text of the environment variable denotes, if it denotes a number.
pub fn resolve_min_item_separation(
    cli_value: Option<Scalar>,
    env_raw: Option<&str>,
    env_value: Option<Scalar>,
    config_default: Option<Scalar>,
) -> (r: Result<Option<Scalar>, SeparationError>)
    ensures
        r == resolved_separation(cli_value, optional_text(env_raw), env_value, config_default),
{
    let env_set: bool = match env_raw {
        Some(raw) => is_set(raw),
        None => false,
    };
    if env_set {
        match env_value {
            Some(v) => {
                if !v.is_finite() {
                    return Err(SeparationError::Environment);
                }
            },
            None => {
                return Err(SeparationError::Environment);
            },
        }
    }
    let asked: Option<Scalar> = match cli_value {
        Some(v) => Some(v),
        None => if env_set {
            env_value
        } else {
            None
        },
    };
    match asked {
        Some(v) => {
            let zero = Scalar { bits: 0 };
            if !v.is_finite() {
                Err(SeparationError::Argument)
            } else if zero.lt(v) {
                Ok(Some(v))
            } else {
                Ok(None)
            }
        },
        None => Ok(config_default),
    }
}

/// **A separation is finite and positive, or there is none**, provided that the default is.
pub proof fn lemma_separation_is_usable(
    cli_value: Option<Scalar>,
    env_raw: Option<Seq<char>>,
    env_value: Option<Scalar>,
    config_default: Option<Scalar>,
)
    requires
        config_default matches Some(d) ==> d.finite() && (Scalar { bits: 0 }).less(d),
    ensures
        resolved_separation(cli_value, env_raw, env_value, config_default) matches Ok(Some(v))
            ==> v.finite() && (Scalar { bits: 0 }).less(v),
{
}

/// One placement of a solution that a run is to start from.
#[derive(Debug, Clone)]
pub struct WarmPlacement {
    /// Which item is placed.
    pub item_id: usize,
    /// Its rotation (degrees).
    pub rotation: Scalar,
    /// Its translation.
    pub x: Scalar,
    /// Its translation.
    pub y: Scalar,
    /// Distances between the rotation and each allowed one; `None` if any is allowed.
    pub deltas: Option<Vec<Scalar>>,
}

/// What is wrong with one placement.
#[derive(Debug, Clone, Copy, PartialEq, Eq, Structural)]
pub enum PlacementFault {
    /// There is no such item.
    UnknownItem,
    /// Its transformation is not finite.
    NotFinite,
    /// Its rotation is not allowed.
    Rotation,
}

/// Why a run cannot start from a solution.
#[derive(Debug)]
pub enum WarmStartError {
    /// The width of the strip is not finite and positive.
    Width,
    /// A placement is wrong.
    Placement {
        /// Position of the placement.
        index: usize,
        /// Which item it places.
        item_id: usize,
        /// What is wrong with it.
        fault: PlacementFault,
    },
    /// It does not cover the demand; the message about that.
    Demand(String),
}

/// Whether there is an item with this id.
pub open spec fn declares(items: Seq<(usize, usize)>, id: usize) -> bool {
    exists|i: int| 0 <= i < items.len() && (#[trigger] items[i]).0 == id
}

/// The position of the declaration that counts for an id: the last one.
pub open spec fn declaration(items: Seq<(usize, usize)>, id: usize, i: int) -> bool {
    0 <= i < items.len() && items[i].0 == id && forall|k: int|
        i < k < items.len() ==> (#[trigger] items[k]).0 != id
}

/// The position of the declaration that counts for an id, from the ids of the items and how often
/// each is demanded.
pub fn declared_item(items: &Vec<(usize, usize)>, id: usize) -> (r: Option<usize>)
    ensures
        match r {
            Some(i) => declaration(items@, id, i as int),
            None => !declares(items@, id),
        },
{
    let mut i: usize = items.len();
    while i > 0
        invariant
            i <= items@.len(),
            forall|k: int| i <= k < items@.len() ==> (#[trigger] items@[k]).0 != id,
        decreases i,
    {
        i = i - 1;
        if items[i].0 == id {
            return Some(i);
        }
    }
    None
}

/// What is wrong with a placement, if anything is.
pub open spec fn placement_fault(
    items: Seq<(usize, usize)>,
    p: WarmPlacement,
    tolerance: Scalar,
) -> Option<PlacementFault> {
    if !declares(items, p.item_id) {
        Some(PlacementFault::UnknownItem)
    } else if !p.rotation.finite() || !p.x.finite() || !p.y.finite() {
        Some(PlacementFault::NotFinite)
    } else if !rotations::within(
        p.rotation.finite(),
        rotations::deltas_view(p.deltas),
        tolerance,
    ) {
        Some(PlacementFault::Rotation)
    } else {
        None
    }
}

fn find_fault(items: &Vec<(usize, usize)>, p: &WarmPlacement, tolerance: Scalar) -> (r: Option<
    PlacementFault,
>)
    ensures
        r == placement_fault(items@, *p, tolerance),
{
    match declared_item(items, p.item_id) {
        None => {
            return Some(PlacementFault::UnknownItem);
        },
        Some(i) => {
            assert(items@[i as int].0 == p.item_id);
        },
    }
    if !p.rotation.is_finite() || !p.x.is_finite() || !p.y.is_finite() {
        return Some(PlacementFault::NotFinite);
    }
    if !rotation_is_allowed(p.rotation.is_finite(), &p.deltas, tolerance) {
        return Some(PlacementFault::Rotation);
    }
    None
}

/// None of the first `m` placements is wrong.
pub open spec fn faultless(
    items: Seq<(usize, usize)>,
    placements: Seq<WarmPlacement>,
    tolerance: Scalar,
    m: int,
) -> bool {
    forall|i: int|
        0 <= i < m ==> placement_fault(items, #[trigger] placements[i], tolerance) is None
}

/// The ids that the placements place.
pub open spec fn placed_ids(placements: Seq<WarmPlacement>) -> Seq<usize> {
    placements.map_values(|p: WarmPlacement| p.item_id)
}

/// How often each id is placed.
pub open spec fn warm_counts(placements: Seq<WarmPlacement>) -> Map<usize, usize> {
    verify::counts_of(placed_ids(placements), placements.len())
}

/// Checks a solution before a run starts from it. It is restored as it stands, so whatever is wrong
/// with it would be carried straight through to the result.
///
/// `items` holds the ids of the items and how often each is demanded.
pub fn validate_spp_warm_start(
    width: Scalar,
    items: &Vec<(usize, usize)>,
    placements: &Vec<WarmPlacement>,
    tolerance: Scalar,
) -> (r: Result<(), WarmStartError>)
    ensures
        ({
            let usable = width.finite() && (Scalar { bits: 0 }).less(width);
            let n = placements@.len() as int;
            let demand = verify::demands_of(items@, items@.len());
            match r {
                Ok(()) => usable && faultless(items@, placements@, tolerance, n)
                    && verify::covers(warm_counts(placements@), demand),
                Err(WarmStartError::Width) => !usable,
                Err(WarmStartError::Placement { index, item_id, fault }) => {
                    &&& usable
                    &&& index < n
                    &&& faultless(items@, placements@, tolerance, index as int)
                    &&& placement_fault(items@, placements@[index as int], tolerance) == Some(fault)
                    &&& item_id == placements@[index as int].item_id
                },
                Err(WarmStartError::Demand(message)) => {
                    &&& usable
                    &&& faultless(items@, placements@, tolerance, n)
                    &&& !verify::covers(warm_counts(placements@), demand)
                    &&& message@ == verify::demand_message(
                        "the warm start solution"@,
                        warm_counts(placements@),
                        demand,
                    )
                },
            }
        }),
{
    let zero = Scalar { bits: 0 };
    if !width.is_finite() || !zero.lt(width) {
        return Err(WarmStartError::Width);
    }
    let mut ids: Vec<usize> = Vec::new();
    let mut i: usize = 0;
    while i < placements.len()
        invariant
            width.finite() && (Scalar { bits: 0 }).less(width),
            i <= placements@.len(),
            faultless(items@, placements@, tolerance, i as int),
            ids@.len() == i,
            forall|k: int| 0 <= k < i ==> #[trigger] ids@[k] == placements@[k].item_id,
        decreases placements@.len() - i,
    {
        if let Some(fault) = find_fault(items, &placements[i], tolerance) {
            return Err(
                WarmStartError::Placement { index: i, item_id: placements[i].item_id, fault },
            );
        }
        ids.push(placements[i].item_id);
        i = i + 1;
    }
    assert(ids@ =~= placed_ids(placements@));
    match check_demand(&spp_placed(&ids), &spp_demand(items), "the warm start solution") {
        Ok(()) => Ok(()),
        Err(message) => Err(WarmStartError::Demand(message)),
    }
}

/// **A run starts only from a complete and legal solution**: if every check passes, every item of the
/// demand is placed exactly as often as it is demanded, at finite positions and allowed rotations.
pub proof fn lemma_warm_start_is_complete(
    items: Seq<(usize, usize)>,
    placements: Seq<WarmPlacement>,
    tolerance: Scalar,
    id: usize,
)
    requires
        faultless(items, placements, tolerance, placements.len() as int),
        verify::covers(warm_counts(placements), verify::demands_of(items, items.len())),
    ensures
        verify::count_of(warm_counts(placements), id) == verify::count_of(
            verify::demands_of(items, items.len()),
            id,
        ),
        forall|i: int|
            0 <= i < placements.len() ==> declares(items, (#[trigger] placements[i]).item_id)
                && placements[i].rotation.finite() && placements[i].x.finite()
                && placements[i].y.finite() && rotations::within(
                true,
                rotations::deltas_view(placements[i].deltas),
                tolerance,
            ),
{
    assert forall|i: int| 0 <= i < placements.len() implies declares(
        items,
        (#[trigger] placements[i]).item_id,
    ) && placements[i].rotation.finite() && placements[i].x.finite() && placements[i].y.finite()
        && rotations::within(true, rotations::deltas_view(placements[i].deltas), tolerance) by {
        assert(placement_fault(items, placements[i], tolerance) is None);
    }
}

/// **A start is accepted exactly if it is complete and legal**: every placement places an item that
/// exists, at a finite position and an allowed rotation, and every id is placed as often as it is
/// demanded, no matter how often that is.
pub proof fn lemma_warm_start_check_is_exact(
    items: Seq<(usize, usize)>,
    placements: Seq<WarmPlacement>,
    tolerance: Scalar,
)
    requires
        placements.len() <= usize::MAX,
    ensures
        faultless(items, placements, tolerance, placements.len() as int) <==> forall|i: int|
            0 <= i < placements.len() ==> {
                let p = #[trigger] placements[i];
                &&& exists|k: int| 0 <= k < items.len() && (#[trigger] items[k]).0 == p.item_id
                &&& p.rotation.finite() && p.x.finite() && p.y.finite()
                &&& rotations::within(true, rotations::deltas_view(p.deltas), tolerance)
            },
        verify::covers(warm_counts(placements), verify::demands_of(items, items.len())) <==> forall|
            id: usize,
        | #[trigger]
            placed_ids(placements).to_multiset().count(id) == verify::count_of(
                verify::demands_of(items, items.len()),
                id,
            ),
{
    let demand = verify::demands_of(items, items.len());
    let ids = placed_ids(placements);
    assert forall|id: usize| #[trigger] ids.to_multiset().count(id) == verify::count_of(
        warm_counts(placements),
        id,
    ) by {
        verify::lemma_counts_are_occurrences(ids, id);
    }
    if verify::covers(warm_counts(placements), demand) {
        assert forall|id: usize| #[trigger] ids.to_multiset().count(id) == verify::count_of(
            demand,
            id,
        ) by {
            assert(verify::count_of(warm_counts(placements), id) == verify::count_of(demand, id));
        }
    }
    if forall|id: usize| #[trigger]
        ids.to_multiset().count(id) == verify::count_of(demand, id) {
        assert forall|id: usize|
            #![trigger verify::count_of(warm_counts(placements), id)]
            #![trigger verify::count_of(demand, id)]
            verify::count_of(warm_counts(placements), id) == verify::count_of(demand, id) by {
            assert(ids.to_multiset().count(id) == verify::count_of(demand, id));
        }
    }
    let legal = |p: WarmPlacement|
        {
            &&& exists|k: int| 0 <= k < items.len() && (#[trigger] items[k]).0 == p.item_id
            &&& p.rotation.finite() && p.x.finite() && p.y.finite()
            &&& rotations::within(true, rotations::deltas_view(p.deltas), tolerance)
        };
    assert forall|i: int| 0 <= i < placements.len() implies legal(#[trigger] placements[i]) == (
    placement_fault(items, placements[i], tolerance) is None) by {}
    if faultless(items, placements, tolerance, placements.len() as int) {
        assert forall|i: int| 0 <= i < placements.len() implies legal(#[trigger] placements[i]) by {
            assert(placement_fault(items, placements[i], tolerance) is None);
        }
    }
}

/// **A placement is refused for what is wrong with it**: that its item does not exist comes first, then
/// that it is nowhere, then its rotation.
pub proof fn lemma_placement_faults_are_true(
    items: Seq<(usize, usize)>,
    p: WarmPlacement,
    tolerance: Scalar,
)
    ensures
        placement_fault(items, p, tolerance) == Some(PlacementFault::UnknownItem) <==> forall|k: int|
            0 <= k < items.len() ==> (#[trigger] items[k]).0 != p.item_id,
        placement_fault(items, p, tolerance) == Some(PlacementFault::NotFinite) <==> (exists|k: int|
            0 <= k < items.len() && (#[trigger] items[k]).0 == p.item_id) && !(p.rotation.finite()
            && p.x.finite() && p.y.finite()),
{
}

/// What the messages about a solution quote: numbers with a fraction, as text.
#[derive(Debug, Clone)]
pub struct WarmTexts {
    /// The width of the strip.
    pub width: String,
    /// The rotation of the placement that is refused.
    pub rotation: String,
    /// The rotations that its item allows.
    pub allowed: String,
    /// The ids of the items.
    pub known: String,
}

/// The message about a solution that no run can start from.
pub open spec fn warm_start_message(e: WarmStartError, texts: WarmTexts) -> Seq<char> {
    match e {
        WarmStartError::Width => "the warm start solution has an invalid strip width ("@
            + texts.width@ + "); it must be finite and > 0"@,
        WarmStartError::Placement { index, item_id, fault } => match fault {
            PlacementFault::UnknownItem => "the warm start solution places an unknown item id "@
                + text::decimal(item_id as nat) + " (placement #"@ + text::decimal(index as nat)
                + "); the instance defines item id(s) "@ + texts.known@,
            PlacementFault::NotFinite =>
            "the warm start solution has a non-finite transformation for item "@ + text::decimal(
                item_id as nat,
            ) + " (placement #"@ + text::decimal(index as nat) + ")"@,
            PlacementFault::Rotation => "the warm start solution places item "@ + text::decimal(
                item_id as nat,
            ) + " (placement #"@ + text::decimal(index as nat) + ") at "@ + texts.rotation@
                + "°, which is not one of its allowed_orientations ("@ + texts.allowed@
                + "); a warm start is restored as-is, so this rotation would be carried straight through to the exported solution"@,
        },
        WarmStartError::Demand(detail) => detail@
            + "; a warm start is restored as-is, so a missing or extra placement would be carried straight through to the exported solution"@,
    }
}

fn push_placement(s: &mut String, item_id: usize, index: usize)
    ensures
        final(s)@ == old(s)@ + text::decimal(item_id as nat) + " (placement #"@ + text::decimal(
            index as nat,
        ),
{
    push_decimal(s, item_id as u64);
    s.append(" (placement #");
    push_decimal(s, index as u64);
}

impl WarmStartError {
    /// The message for the user.
    pub fn to_string(&self, texts: &WarmTexts) -> (s: String)
        ensures
            s@ == warm_start_message(*self, *texts),
    {
        let mut s = String::new();
        match self {
            WarmStartError::Width => {
                s.append("the warm start solution has an invalid strip width (");
                s.append(texts.width.as_str());
                s.append("); it must be finite and > 0");
            },
            WarmStartError::Placement { index, item_id, fault } => match *fault {
                PlacementFault::UnknownItem => {
                    s.append("the warm start solution places an unknown item id ");
                    push_placement(&mut s, *item_id, *index);
                    s.append("); the instance defines item id(s) ");
                    s.append(texts.known.as_str());
                },
                PlacementFault::NotFinite => {
                    s.append("the warm start solution has a non-finite transformation for item ");
                    push_placement(&mut s, *item_id, *index);
                    s.append(")");
                },
                PlacementFault::Rotation => {
                    s.append("the warm start solution places item ");
                    push_placement(&mut s, *item_id, *index);
                    s.append(") at ");
                    s.append(texts.rotation.as_str());
                    s.append("°, which is not one of its allowed_orientations (");
                    s.append(texts.allowed.as_str());
                    s.append(
                        "); a warm start is restored as-is, so this rotation would be carried straight through to the exported solution",
                    );
                },
            },
            WarmStartError::Demand(detail) => {
                s.append(detail.as_str());
                s.append(
                    "; a warm start is restored as-is, so a missing or extra placement would be carried straight through to the exported solution",
                );
            },
        }
        assert(s@ =~= warm_start_message(*self, *texts));
        s
    }
}

/// The strip packing instance of `jagua_rs`, as it stands in a file. It is carried through as a whole;
/// what it holds is not seen here.
#[verifier::external_type_specification]
#[verifier::external_body]
pub struct ExExtSPInstance(ExtSPInstance);

/// A strip packing instance as it was read.
pub struct StripInstance {
    /// The instance itself.
    pub outside: ExtSPInstance,
    /// The id and the demand of every item, in order.
    pub items: Vec<(u64, u64)>,
}

impl View for StripInstance {
    type V = (ExtSPInstance, Seq<(u64, u64)>);

    open spec fn view(&self) -> (ExtSPInstance, Seq<(u64, u64)>) {
        (self.outside, self.items@)
    }
}

/// Why an input file is refused.
#[derive(Debug, Clone)]
pub enum InputError {
    /// It is of no known form.
    Unreadable {
        /// What the parser says against the last form that was tried.
        reason: String,
    },
    /// It is a strip packing instance, and the command line declares no bins.
    NoBins,
}

/// What `serde_json::from_str` makes of a text as a strip packing instance: the instance, with the ids
/// and demands of its items, or what its error says.
pub uninterp spec fn strip_instance_of(text: Seq<char>) -> Result<
    (ExtSPInstance, Seq<(u64, u64)>),
    Seq<char>,
>;

/// Reads a strip packing instance with `serde_json::from_str`. The instance, with the ids and demands
/// of its items, or the text of the error, is named: it depends on the text alone.
#[verifier::external_body]
pub(crate) fn parse_strip_instance(text: &str) -> (r: Result<StripInstance, String>)
    ensures
        strip_instance_of(text@) == match r {
            Ok(i) => Ok::<(ExtSPInstance, Seq<(u64, u64)>), Seq<char>>(i@),
            Err(reason) => Err(reason@),
        },
{
    match serde_json::from_str::<ExtSPInstance>(text) {
        Ok(outside) => {
            let items = outside.items.iter().map(|it| (it.base.id, it.demand)).collect();
            Ok(StripInstance { outside, items })
        },
        Err(e) => Err(e.to_string()),
    }
}

/// Reads a strip packing input: a solved instance, which is `Ok(None)`, or else an instance. `solved`
/// says whether the text is an instance with a solution.
pub fn read_spp_input(text: &str, solved: bool) -> (r: Result<Option<StripInstance>, InputError>)
    ensures
        match r {
            Ok(None) => solved,
            Ok(Some(i)) => !solved && strip_instance_of(text@) == Ok::<
                (ExtSPInstance, Seq<(u64, u64)>),
                Seq<char>,
            >(i@),
            Err(InputError::Unreadable { reason }) => !solved && strip_instance_of(text@) == Err::<
                (ExtSPInstance, Seq<(u64, u64)>),
                Seq<char>,
            >(reason@),
            Err(InputError::NoBins) => false,
        },
{
    if solved {
        return Ok(None);
    }
    match parse_strip_instance(text) {
        Ok(i) => Ok(Some(i)),
        Err(reason) => Err(InputError::Unreadable { reason }),
    }
}

/// **Numbers are accepted exactly by their range**: a finite one, a finite one above zero, a finite one that is
/// not below zero, and a finite one of at least the thinnest wall; everything else is refused.
pub proof fn lemma_numbers_are_accepted_by_their_range(s: Seq<char>, parsed: Option<Scalar>)
    ensures
        finite_complaint(s, parsed) is None <==> (parsed matches Some(v) && v.finite()),
        positive_complaint(s, parsed) is None <==> (parsed matches Some(v) && v.finite() && v.value()
            > 0),
        non_negative_complaint(s, parsed) is None <==> (parsed matches Some(v) && v.finite()
            && v.value() >= 0),
        gap_complaint(s, parsed) is None <==> (parsed matches Some(v) && v.finite() && v.value() >= (
        Scalar { bits: crate::scalar::ONE_BITS }).value()),
{
}

/// **The command line outranks the environment, and the environment the default.** A separation that is given
/// and not positive disables it; an environment variable that says something but not a finite number is an
/// error whatever else is given, and one that says nothing counts as none.
pub proof fn lemma_where_the_separation_comes_from(
    cli_value: Option<Scalar>,
    env_raw: Option<Seq<char>>,
    env_value: Option<Scalar>,
    config_default: Option<Scalar>,
)
    ensures
        ({
            let r = resolved_separation(cli_value, env_raw, env_value, config_default);
            let set = env_raw is Some && exists|i: int|
                0 <= i < (env_raw->0).len() && !text::white_space(#[trigger] (env_raw->0)[i]);
            let sound = env_value is Some && (env_value->0).finite();
            &&& r == Err::<Option<Scalar>, SeparationError>(SeparationError::Environment) <==> set
                && !sound
            &&& !set || sound ==> match cli_value {
                Some(v) => if v.finite() && v.value() > 0 {
                    r == Ok::<Option<Scalar>, SeparationError>(Some(v))
                } else if v.finite() {
                    r == Ok::<Option<Scalar>, SeparationError>(None)
                } else {
                    r == Err::<Option<Scalar>, SeparationError>(SeparationError::Argument)
                },
                None => if set && (env_value->0).value() > 0 {
                    r == Ok::<Option<Scalar>, SeparationError>(env_value)
                } else if set {
                    r == Ok::<Option<Scalar>, SeparationError>(None)
                } else {
                    r == Ok::<Option<Scalar>, SeparationError>(config_default)
                },
            }
        }),
{
}

/// **What is accepted is what was read**: a number that is accepted is handed on as it is, and one that is refused
/// is answered with the complaint about it.
pub proof fn lemma_what_is_accepted_is_what_was_read(
    r: Result<Scalar, String>,
    parsed: Option<Scalar>,
    about: Option<Seq<char>>,
)
    requires
        parses_to(r, parsed, about),
    ensures
        r is Ok <==> about is None,
        r matches Ok(v) ==> parsed == Some(v),
        r matches Err(e) ==> about == Some(e@),
{
}

/// **The last declaration of an id counts**: none behind it declares the same id, and none that does counts
/// before it.
pub proof fn lemma_the_last_declaration_counts(items: Seq<(usize, usize)>, id: usize, i: int, k: int)
    requires
        declaration(items, id, i),
        0 <= k < items.len(),
        items[k].0 == id,
    ensures
        items[i].0 == id,
        k <= i,
{
}

} // verus!
