//! Parallel work grains: which grain each reduction class uses, how a grain is
//! resolved from its override text or its default, how it is cached and set,
//! and how many chunks a piece of work is split into.
//!
//! The grains live in a [`GrainCache`] value. The override text of each grain
//! (the `REDUCERS_*_GRAIN` environment variable) is handed to
//! [`GrainCache::new`] by the caller, which reads the environment.

use vstd::prelude::*;

verus! {

pub const DEFAULT_AXIS_SCAN_PLAIN_GRAIN: usize = 262_144;
pub const DEFAULT_AXIS_SCAN_NAN_GRAIN: usize = 262_144;
pub const DEFAULT_AXIS_SCAN_VAR_GRAIN: usize = 262_144;
pub const DEFAULT_AXIS_WEIGHTED_GRAIN: usize = 262_144;
pub const DEFAULT_AXIS_ORDER_MEDIAN_GRAIN: usize = 1_024;
pub const DEFAULT_AXIS_ORDER_PERCENTILE_GRAIN: usize = 1_024;
pub const DEFAULT_MINMAX_1D_GRAIN: usize = 65_536;

/// The parallel class of an axis reduction; each class has its own grain.
#[derive(Clone, Copy, Debug, PartialEq, Eq, Structural)]
pub enum AxisParallelClass {
    ScanPlain,
    ScanNan,
    ScanVar,
    Weighted,
    OrderMedian,
    OrderPercentile,
}

/// One named parallel work grain.
#[derive(Clone, Copy, Debug, PartialEq, Eq, Structural)]
pub enum GrainKey {
    AxisScanPlain,
    AxisScanNan,
    AxisScanVar,
    AxisWeighted,
    AxisOrderMedian,
    AxisOrderPercentile,
    Minmax1d,
}

/// Number of named grains.
pub const GRAIN_COUNT: usize = 7;

/// Position of a grain in the declaration order of the keys.
pub open spec fn slot_of(k: GrainKey) -> int {
    match k {
        GrainKey::AxisScanPlain => 0,
        GrainKey::AxisScanNan => 1,
        GrainKey::AxisScanVar => 2,
        GrainKey::AxisWeighted => 3,
        GrainKey::AxisOrderMedian => 4,
        GrainKey::AxisOrderPercentile => 5,
        GrainKey::Minmax1d => 6,
    }
}

/// The key at a position of the declaration order.
pub open spec fn key_at_slot(i: int) -> GrainKey {
    if i == 0 {
        GrainKey::AxisScanPlain
    } else if i == 1 {
        GrainKey::AxisScanNan
    } else if i == 2 {
        GrainKey::AxisScanVar
    } else if i == 3 {
        GrainKey::AxisWeighted
    } else if i == 4 {
        GrainKey::AxisOrderMedian
    } else if i == 5 {
        GrainKey::AxisOrderPercentile
    } else {
        GrainKey::Minmax1d
    }
}

/// The public name of a grain.
pub open spec fn key_name(k: GrainKey) -> Seq<char> {
    match k {
        GrainKey::AxisScanPlain => "axis_scan_plain"@,
        GrainKey::AxisScanNan => "axis_scan_nan"@,
        GrainKey::AxisScanVar => "axis_scan_var"@,
        GrainKey::AxisWeighted => "axis_weighted"@,
        GrainKey::AxisOrderMedian => "axis_order_median"@,
        GrainKey::AxisOrderPercentile => "axis_order_percentile"@,
        GrainKey::Minmax1d => "minmax_1d"@,
    }
}

/// The environment variable that overrides a grain.
pub open spec fn env_var_name(k: GrainKey) -> Seq<char> {
    match k {
        GrainKey::AxisScanPlain => "REDUCERS_AXIS_SCAN_PLAIN_GRAIN"@,
        GrainKey::AxisScanNan => "REDUCERS_AXIS_SCAN_NAN_GRAIN"@,
        GrainKey::AxisScanVar => "REDUCERS_AXIS_SCAN_VAR_GRAIN"@,
        GrainKey::AxisWeighted => "REDUCERS_AXIS_WEIGHTED_GRAIN"@,
        GrainKey::AxisOrderMedian => "REDUCERS_AXIS_ORDER_MEDIAN_GRAIN"@,
        GrainKey::AxisOrderPercentile => "REDUCERS_AXIS_ORDER_PERCENTILE_GRAIN"@,
        GrainKey::Minmax1d => "REDUCERS_MINMAX_1D_GRAIN"@,
    }
}

/// The built-in value of a grain.
pub open spec fn default_of(k: GrainKey) -> usize {
    match k {
        GrainKey::AxisScanPlain => DEFAULT_AXIS_SCAN_PLAIN_GRAIN,
        GrainKey::AxisScanNan => DEFAULT_AXIS_SCAN_NAN_GRAIN,
        GrainKey::AxisScanVar => DEFAULT_AXIS_SCAN_VAR_GRAIN,
        GrainKey::AxisWeighted => DEFAULT_AXIS_WEIGHTED_GRAIN,
        GrainKey::AxisOrderMedian => DEFAULT_AXIS_ORDER_MEDIAN_GRAIN,
        GrainKey::AxisOrderPercentile => DEFAULT_AXIS_ORDER_PERCENTILE_GRAIN,
        GrainKey::Minmax1d => DEFAULT_MINMAX_1D_GRAIN,
    }
}

/// The grain that an axis class is scheduled with.
pub open spec fn class_key(class: AxisParallelClass) -> GrainKey {
    match class {
        AxisParallelClass::ScanPlain => GrainKey::AxisScanPlain,
        AxisParallelClass::ScanNan => GrainKey::AxisScanNan,
        AxisParallelClass::ScanVar => GrainKey::AxisScanVar,
        AxisParallelClass::Weighted => GrainKey::AxisWeighted,
        AxisParallelClass::OrderMedian => GrainKey::AxisOrderMedian,
        AxisParallelClass::OrderPercentile => GrainKey::AxisOrderPercentile,
    }
}

/// The key whose name is `name`, if any.
pub open spec fn key_named(name: Seq<char>) -> Option<GrainKey> {
    if exists|k: GrainKey| key_name(k) == name {
        Some(choose|k: GrainKey| key_name(k) == name)
    } else {
        None
    }
}

/// The keys in the order of their names (the order of a map keyed by name).
pub open spec fn key_in_name_order(i: int) -> GrainKey {
    if i == 0 {
        GrainKey::AxisOrderMedian
    } else if i == 1 {
        GrainKey::AxisOrderPercentile
    } else if i == 2 {
        GrainKey::AxisScanNan
    } else if i == 3 {
        GrainKey::AxisScanPlain
    } else if i == 4 {
        GrainKey::AxisScanVar
    } else if i == 5 {
        GrainKey::AxisWeighted
    } else {
        GrainKey::Minmax1d
    }
}

impl GrainKey {
    /// All keys, in declaration order.
    pub fn all() -> (keys: Vec<GrainKey>)
        ensures
            keys@.len() == GRAIN_COUNT,
            forall|i: int| 0 <= i < GRAIN_COUNT ==> #[trigger] keys@[i] == key_at_slot(i),
    {
        let mut keys: Vec<GrainKey> = Vec::new();
        keys.push(GrainKey::AxisScanPlain);
        keys.push(GrainKey::AxisScanNan);
        keys.push(GrainKey::AxisScanVar);
        keys.push(GrainKey::AxisWeighted);
        keys.push(GrainKey::AxisOrderMedian);
        keys.push(GrainKey::AxisOrderPercentile);
        keys.push(GrainKey::Minmax1d);
        keys
    }

    /// Position of the key in declaration order.
    pub fn slot(&self) -> (i: usize)
        ensures
            i == slot_of(*self),
            i < GRAIN_COUNT,
    {
        match self {
            GrainKey::AxisScanPlain => 0,
            GrainKey::AxisScanNan => 1,
            GrainKey::AxisScanVar => 2,
            GrainKey::AxisWeighted => 3,
            GrainKey::AxisOrderMedian => 4,
            GrainKey::AxisOrderPercentile => 5,
            GrainKey::Minmax1d => 6,
        }
    }

    /// The public name of the grain.
    pub fn name(&self) -> (s: &'static str)
        ensures
            s@ == key_name(*self),
    {
        match self {
            GrainKey::AxisScanPlain => "axis_scan_plain",
            GrainKey::AxisScanNan => "axis_scan_nan",
            GrainKey::AxisScanVar => "axis_scan_var",
            GrainKey::AxisWeighted => "axis_weighted",
            GrainKey::AxisOrderMedian => "axis_order_median",
            GrainKey::AxisOrderPercentile => "axis_order_percentile",
            GrainKey::Minmax1d => "minmax_1d",
        }
    }

    /// The environment variable that overrides the grain.
    pub fn env_name(&self) -> (s: &'static str)
        ensures
            s@ == env_var_name(*self),
    {
        match self {
            GrainKey::AxisScanPlain => "REDUCERS_AXIS_SCAN_PLAIN_GRAIN",
            GrainKey::AxisScanNan => "REDUCERS_AXIS_SCAN_NAN_GRAIN",
            GrainKey::AxisScanVar => "REDUCERS_AXIS_SCAN_VAR_GRAIN",
            GrainKey::AxisWeighted => "REDUCERS_AXIS_WEIGHTED_GRAIN",
            GrainKey::AxisOrderMedian => "REDUCERS_AXIS_ORDER_MEDIAN_GRAIN",
            GrainKey::AxisOrderPercentile => "REDUCERS_AXIS_ORDER_PERCENTILE_GRAIN",
            GrainKey::Minmax1d => "REDUCERS_MINMAX_1D_GRAIN",
        }
    }

    /// The built-in value of the grain.
    pub fn default_grain(&self) -> (g: usize)
        ensures
            g == default_of(*self),
    {
        match self {
            GrainKey::AxisScanPlain => DEFAULT_AXIS_SCAN_PLAIN_GRAIN,
            GrainKey::AxisScanNan => DEFAULT_AXIS_SCAN_NAN_GRAIN,
            GrainKey::AxisScanVar => DEFAULT_AXIS_SCAN_VAR_GRAIN,
            GrainKey::AxisWeighted => DEFAULT_AXIS_WEIGHTED_GRAIN,
            GrainKey::AxisOrderMedian => DEFAULT_AXIS_ORDER_MEDIAN_GRAIN,
            GrainKey::AxisOrderPercentile => DEFAULT_AXIS_ORDER_PERCENTILE_GRAIN,
            GrainKey::Minmax1d => DEFAULT_MINMAX_1D_GRAIN,
        }
    }

    /// The key named `name`, or `None` for an unknown name.
    pub fn from_name(name: &str) -> (k: Option<GrainKey>)
        ensures
            k == key_named(name@),
    {
        let keys = GrainKey::all();
        let mut i: usize = 0;
        while i < keys.len()
            invariant
                keys@.len() == GRAIN_COUNT,
                forall|j: int| 0 <= j < GRAIN_COUNT ==> #[trigger] keys@[j] == key_at_slot(j),
                i <= keys.len(),
                forall|j: int| 0 <= j < i ==> key_name(key_at_slot(j)) != name@,
            decreases keys.len() - i,
        {
            let k = keys[i];
            if same_text(k.name(), name) {
                proof {
                    lemma_key_names_distinct();
                    assert(key_name(k) == name@);
                }
                return Some(k);
            }
            i = i + 1;
        }
        proof {
            assert forall|k: GrainKey| key_name(k) != name@ by {
                assert(key_at_slot(slot_of(k)) == k);
            }
        }
        None
    }
}

/// The names of distinct grains differ.
proof fn lemma_key_names_distinct()
    ensures
        forall|a: GrainKey, b: GrainKey| key_name(a) == key_name(b) ==> a == b,
{
    reveal_strlit("axis_scan_plain");
    reveal_strlit("axis_scan_nan");
    reveal_strlit("axis_scan_var");
    reveal_strlit("axis_weighted");
    reveal_strlit("axis_order_median");
    reveal_strlit("axis_order_percentile");
    reveal_strlit("minmax_1d");
    assert forall|a: GrainKey, b: GrainKey| key_name(a) == key_name(b) implies a == b by {
        if a != b {
            let sa = key_name(a);
            let sb = key_name(b);
            if sa.len() == sb.len() {
                // names of equal length differ in a character
                assert(sa[5] != sb[5] || sa[10] != sb[10] || sa[11] != sb[11] || sa[12] != sb[12]);
            }
        }
    }
}

/// Whether two strings hold the same characters.
pub fn same_text(a: &str, b: &str) -> (r: bool)
    ensures
        r == (a@ == b@),
{
    let n = a.unicode_len();
    if n != b.unicode_len() {
        return false;
    }
    let mut i: usize = 0;
    while i < n
        invariant
            n == a@.len(),
            n == b@.len(),
            i <= n,
            forall|j: int| 0 <= j < i ==> a@[j] == b@[j],
        decreases n - i,
    {
        if a.get_char(i) != b.get_char(i) {
            return false;
        }
        i = i + 1;
    }
    proof {
        assert(a@ =~= b@);
    }
    true
}

// ---------------------------------------------------------------------------
// override text
// ---------------------------------------------------------------------------

/// Value of a sequence of decimal digits.
pub open spec fn decimal_value(digits: Seq<char>) -> int
    decreases digits.len(),
{
    if digits.len() == 0 {
        0
    } else {
        10 * decimal_value(digits.drop_last()) + (digits.last() as int - '0' as int)
    }
}

/// Whether every character is an ASCII decimal digit.
pub open spec fn all_digits(s: Seq<char>) -> bool {
    forall|i: int| 0 <= i < s.len() ==> '0' <= #[trigger] s[i] <= '9'
}

/// A `usize` written in decimal: an optional `+` and at least one digit, whose
/// value fits.
pub open spec fn usize_from_decimal(s: Seq<char>) -> Option<usize> {
    let digits = if s.len() > 0 && s[0] == '+' {
        s.drop_first()
    } else {
        s
    };
    if digits.len() > 0 && all_digits(digits) && decimal_value(digits) <= usize::MAX {
        Some(decimal_value(digits) as usize)
    } else {
        None
    }
}

/// `<usize as FromStr>::from_str` (through `str::parse`), keeping only the
/// value. Its documentation says that the text is an optional `+` sign
/// followed by decimal digits only, anything else (whitespace, underscores,
/// other signs, no digit at all) being an error, and a value above
/// `usize::MAX` an overflow error: `Some` exactly then, with the decimal value.
#[verifier::external_body]
fn parse_usize(s: &str) -> (r: Option<usize>)
    ensures
        r == usize_from_decimal(s@),
{
    s.parse::<usize>().ok()
}

/// A grain as its override text gives it: the parsed value when the text is
/// a positive `usize`, else the default.
pub open spec fn grain_from_text(text: Option<Seq<char>>, default: usize) -> usize {
    match text {
        Some(s) => match usize_from_decimal(s) {
            Some(v) => if v > 0 {
                v
            } else {
                default
            },
            None => default,
        },
        None => default,
    }
}

/// A grain from its override text, falling back on `default` when the text is
/// absent, is not a `usize`, or is zero.
pub fn grain_from_override(text: Option<&str>, default: usize) -> (g: usize)
    ensures
        g == grain_from_text(
            match text {
                Some(s) => Some(s@),
                None => None,
            },
            default,
        ),
{
    match text {
        Some(s) => match parse_usize(s) {
            Some(v) => if v > 0 {
                v
            } else {
                default
            },
            None => default,
        },
        None => default,
    }
}

// ---------------------------------------------------------------------------
// grain table
// ---------------------------------------------------------------------------

/// The override text of slot `i`, if the caller gave one.
pub open spec fn override_at(overrides: Seq<Option<String>>, i: int) -> Option<Seq<char>> {
    if 0 <= i < overrides.len() {
        match overrides[i] {
            Some(s) => Some(s@),
            None => None,
        }
    } else {
        None
    }
}

/// The parallel work grains of a process: a value cached per key (0 while
/// unset) and the override text of each key.
pub struct GrainCache {
    cache: Vec<usize>,
    overrides: Vec<Option<String>>,
}

/// Description of one grain: its key, environment variable and default.
pub struct GrainSpec {
    pub key: GrainKey,
    pub env_name: &'static str,
    pub default: usize,
}

impl GrainCache {
    /// The table holds one cache slot per key.
    pub closed spec fn wf(&self) -> bool {
        self.cache@.len() == GRAIN_COUNT
    }

    /// The value that a read of grain `k` gives: the cached value once one is
    /// set, else the value of its override text or its default.
    pub closed spec fn grain(&self, k: GrainKey) -> usize {
        if self.cache@[slot_of(k)] != 0 {
            self.cache@[slot_of(k)]
        } else {
            grain_from_text(override_at(self.overrides@, slot_of(k)), default_of(k))
        }
    }

    /// A table with nothing cached. `overrides[i]` is the override text of the
    /// key at slot `i` (see [`GrainKey::all`]); missing entries have none.
    pub fn new(overrides: Vec<Option<String>>) -> (g: GrainCache)
        ensures
            g.wf(),
            forall|k: GrainKey|
                #[trigger] g.grain(k) == grain_from_text(
                    override_at(overrides@, slot_of(k)),
                    default_of(k),
                ),
    {
        let mut cache: Vec<usize> = Vec::new();
        let mut i: usize = 0;
        while i < GRAIN_COUNT
            invariant
                i <= GRAIN_COUNT,
                cache@.len() == i,
                forall|j: int| 0 <= j < i ==> cache@[j] == 0,
            decreases GRAIN_COUNT - i,
        {
            cache.push(0);
            i = i + 1;
        }
        GrainCache { cache, overrides }
    }

    /// Read grain `key`: the cached value, or else resolve it from its
    /// override text or default and cache it.
    fn cached_value(&mut self, key: GrainKey) -> (v: usize)
        requires
            old(self).wf(),
        ensures
            final(self).wf(),
            v == old(self).grain(key),
            v > 0,
            forall|k: GrainKey| #[trigger] final(self).grain(k) == old(self).grain(k),
    {
        let slot = key.slot();
        let current = self.cache[slot];
        if current != 0 {
            return current;
        }
        let text: Option<&str> = if slot < self.overrides.len() {
            match &self.overrides[slot] {
                Some(s) => Some(s.as_str()),
                None => None,
            }
        } else {
            None
        };
        let value = grain_from_override(text, key.default_grain());
        proof {
            assert(default_of(key) > 0);
        }
        self.cache.set(slot, value);
        proof {
            assert forall|k: GrainKey| #[trigger] self.grain(k) == old(self).grain(k) by {
                if slot_of(k) != slot_of(key) {
                    assert(self.cache@[slot_of(k)] == old(self).cache@[slot_of(k)]);
                } else {
                    assert(k == key);
                }
            }
        }
        value
    }

    /// Store a positive grain for `key`; zero is refused.
    fn store_positive(&mut self, key: GrainKey, value: usize) -> (r: Result<(), &'static str>)
        requires
            old(self).wf(),
        ensures
            final(self).wf(),
            value == 0 ==> (r matches Err(e) && e@ == "parallel grains must be positive integers"@
                && forall|k: GrainKey| #[trigger] final(self).grain(k) == old(self).grain(k)),
            value > 0 ==> (r is Ok && final(self).grain(key) == value && forall|k: GrainKey|
                k != key ==> #[trigger] final(self).grain(k) == old(self).grain(k)),
    {
        if value == 0 {
            return Err("parallel grains must be positive integers");
        }
        let slot = key.slot();
        self.cache.set(slot, value);
        proof {
            assert forall|k: GrainKey| k != key implies #[trigger] self.grain(k) == old(
                self,
            ).grain(k) by {
                assert(slot_of(k) != slot_of(key));
            }
        }
        Ok(())
    }
}

/// The description of the grain named `key`, if any.
fn grain_spec(key: &str) -> (s: Option<GrainSpec>)
    ensures
        match key_named(key@) {
            Some(k) => s matches Some(sp) && sp.key == k && sp.env_name@ == env_var_name(k)
                && sp.default == default_of(k),
            None => s is None,
        },
{
    match GrainKey::from_name(key) {
        Some(k) => Some(GrainSpec { key: k, env_name: k.env_name(), default: k.default_grain() }),
        None => None,
    }
}

/// The scan-reducer axis grain.
pub fn axis_scan_grain(grains: &mut GrainCache) -> (v: usize)
    requires
        old(grains).wf(),
    ensures
        final(grains).wf(),
        v == old(grains).grain(GrainKey::AxisScanPlain),
        forall|k: GrainKey| #[trigger] final(grains).grain(k) == old(grains).grain(k),
{
    grains.cached_value(GrainKey::AxisScanPlain)
}

/// The order-statistic axis grain.
pub fn axis_order_grain(grains: &mut GrainCache) -> (v: usize)
    requires
        old(grains).wf(),
    ensures
        final(grains).wf(),
        v == old(grains).grain(GrainKey::AxisOrderMedian),
        forall|k: GrainKey| #[trigger] final(grains).grain(k) == old(grains).grain(k),
{
    grains.cached_value(GrainKey::AxisOrderMedian)
}

/// The 1-D min/max grain.
pub fn minmax_1d_grain(grains: &mut GrainCache) -> (v: usize)
    requires
        old(grains).wf(),
    ensures
        final(grains).wf(),
        v == old(grains).grain(GrainKey::Minmax1d),
        forall|k: GrainKey| #[trigger] final(grains).grain(k) == old(grains).grain(k),
{
    grains.cached_value(GrainKey::Minmax1d)
}

/// Set one grain: zero is refused and changes nothing; a positive value is
/// what the grain reads from then on, the other grains unchanged.
pub open spec fn set_outcome(
    before: &GrainCache,
    after: &GrainCache,
    key: GrainKey,
    value: usize,
    r: Result<(), &'static str>,
) -> bool {
    &&& after.wf()
    &&& value == 0 ==> (r matches Err(e) && e@ == "parallel grains must be positive integers"@
        && forall|k: GrainKey| #[trigger] after.grain(k) == before.grain(k))
    &&& value > 0 ==> (r is Ok && after.grain(key) == value && forall|k: GrainKey|
        k != key ==> #[trigger] after.grain(k) == before.grain(k))
}

/// Set the scan-reducer axis grain.
pub fn set_axis_scan_grain(grains: &mut GrainCache, value: usize) -> (r: Result<(), &'static str>)
    requires
        old(grains).wf(),
    ensures
        set_outcome(old(grains), final(grains), GrainKey::AxisScanPlain, value, r),
{
    grains.store_positive(GrainKey::AxisScanPlain, value)
}

/// Set the order-statistic axis grain.
pub fn set_axis_order_grain(grains: &mut GrainCache, value: usize) -> (r: Result<(), &'static str>)
    requires
        old(grains).wf(),
    ensures
        set_outcome(old(grains), final(grains), GrainKey::AxisOrderMedian, value, r),
{
    grains.store_positive(GrainKey::AxisOrderMedian, value)
}

/// Set the 1-D min/max grain.
pub fn set_minmax_1d_grain(grains: &mut GrainCache, value: usize) -> (r: Result<(), &'static str>)
    requires
        old(grains).wf(),
    ensures
        set_outcome(old(grains), final(grains), GrainKey::Minmax1d, value, r),
{
    grains.store_positive(GrainKey::Minmax1d, value)
}

/// What a read of the grain named `key` does: it gives the grain's value
/// (an unknown name is an error) and changes no grain.
pub open spec fn read_outcome(
    before: GrainCache,
    after: GrainCache,
    key: Seq<char>,
    r: Result<usize, &'static str>,
) -> bool {
    &&& after.wf()
    &&& forall|k: GrainKey| #[trigger] after.grain(k) == before.grain(k)
    &&& match key_named(key) {
        Some(k) => r == Ok::<usize, &'static str>(before.grain(k)),
        None => r matches Err(e) && e@ == "unknown parallel grain"@,
    }
}

/// What a write of `value` to the grain named `key` does: an unknown name or
/// a zero value is an error and changes nothing; otherwise the grain reads
/// `value` from then on, the value is returned, and the other grains keep
/// theirs.
pub open spec fn write_outcome(
    before: GrainCache,
    after: GrainCache,
    key: Seq<char>,
    value: usize,
    r: Result<usize, &'static str>,
) -> bool {
    &&& after.wf()
    &&& match key_named(key) {
        Some(k) => if value == 0 {
            &&& r matches Err(e) && e@ == "parallel grains must be positive integers"@
            &&& forall|j: GrainKey| #[trigger] after.grain(j) == before.grain(j)
        } else {
            &&& r == Ok::<usize, &'static str>(value)
            &&& after.grain(k) == value
            &&& forall|j: GrainKey| j != k ==> #[trigger] after.grain(j) == before.grain(j)
        },
        None => {
            &&& r matches Err(e) && e@ == "unknown parallel grain"@
            &&& forall|j: GrainKey| #[trigger] after.grain(j) == before.grain(j)
        },
    }
}

/// Read the grain named `key`; an unknown name is an error and changes
/// nothing.
pub fn parallel_grain(grains: &mut GrainCache, key: &str) -> (r: Result<usize, &'static str>)
    requires
        old(grains).wf(),
    ensures
        read_outcome(*old(grains), *final(grains), key@, r),
{
    let spec = match grain_spec(key) {
        Some(spec) => spec,
        None => {
            return Err("unknown parallel grain");
        },
    };
    Ok(grains.cached_value(spec.key))
}

/// Set the grain named `key` and return what it reads from then on.
///
/// An unknown name or a zero value is an error and changes nothing.
pub fn set_parallel_grain(grains: &mut GrainCache, key: &str, value: usize) -> (r: Result<
    usize,
    &'static str,
>)
    requires
        old(grains).wf(),
    ensures
        write_outcome(*old(grains), *final(grains), key@, value, r),
{
    let spec = match grain_spec(key) {
        Some(spec) => spec,
        None => {
            return Err("unknown parallel grain");
        },
    };
    match grains.store_positive(spec.key, value) {
        Ok(()) => {},
        Err(e) => {
            return Err(e);
        },
    }
    Ok(grains.cached_value(spec.key))
}

/// The names and values of a batch of grain writes.
pub open spec fn named_pairs(pairs: Seq<(String, usize)>) -> Seq<(Seq<char>, usize)> {
    pairs.map_values(|p: (String, usize)| (p.0@, p.1))
}

/// Why a batch of grain writes is refused: the first pair with an unknown
/// name or a zero value decides; `None` when every pair is valid.
pub open spec fn batch_refusal(pairs: Seq<(Seq<char>, usize)>) -> Option<Seq<char>>
    decreases pairs.len(),
{
    if pairs.len() == 0 {
        None
    } else if key_named(pairs[0].0) is None {
        Some("unknown parallel grain"@)
    } else if pairs[0].1 == 0 {
        Some("parallel grains must be positive integers"@)
    } else {
        batch_refusal(pairs.drop_first())
    }
}

/// What grain `k` reads after the writes of `pairs`, in order: the last value
/// written under its name, or `otherwise` when none is.
pub open spec fn value_after_writes(
    pairs: Seq<(Seq<char>, usize)>,
    k: GrainKey,
    otherwise: usize,
) -> usize
    decreases pairs.len(),
{
    if pairs.len() == 0 {
        otherwise
    } else if key_named(pairs.last().0) == Some(k) {
        pairs.last().1
    } else {
        value_after_writes(pairs.drop_last(), k, otherwise)
    }
}

/// Set several named grains at once, all or none: every pair is checked
/// first, and the first one with an unknown name or a zero value refuses the
/// whole batch, which then changes nothing. Otherwise the pairs are written
/// in order (a later write under a name wins) and all grains are returned as
/// [`parallel_grains`] gives them.
pub fn set_parallel_grains(grains: &mut GrainCache, pairs: &Vec<(String, usize)>) -> (r: Result<
    Vec<(&'static str, usize)>,
    &'static str,
>)
    requires
        old(grains).wf(),
    ensures
        final(grains).wf(),
        match batch_refusal(named_pairs(pairs@)) {
            Some(e) => {
                &&& r matches Err(m) && m@ == e
                &&& forall|k: GrainKey| #[trigger] final(grains).grain(k) == old(grains).grain(k)
            },
            None => {
                &&& r is Ok
                &&& forall|k: GrainKey| #[trigger]
                    final(grains).grain(k) == value_after_writes(
                        named_pairs(pairs@),
                        k,
                        old(grains).grain(k),
                    )
                &&& r->Ok_0@.len() == GRAIN_COUNT
                &&& forall|i: int|
                    0 <= i < GRAIN_COUNT ==> (#[trigger] r->Ok_0@[i]).0@ == key_name(
                        key_in_name_order(i),
                    ) && r->Ok_0@[i].1 == final(grains).grain(key_in_name_order(i))
            },
        },
{
    let ghost named = named_pairs(pairs@);
    proof {
        assert(named.skip(0) =~= named);
    }
    let mut i: usize = 0;
    while i < pairs.len()
        invariant
            named == named_pairs(pairs@),
            i <= pairs@.len(),
            *grains == *old(grains),
            grains.wf(),
            batch_refusal(named) == batch_refusal(named.skip(i as int)),
            forall|j: int| 0 <= j < i ==> key_named(#[trigger] named[j].0) is Some && named[j].1 > 0,
        decreases pairs@.len() - i,
    {
        let key: &String = &pairs[i].0;
        let value: usize = pairs[i].1;
        proof {
            assert(named[i as int] == (key@, value));
            assert(named.skip(i as int)[0] == named[i as int]);
            assert(named.skip(i as int).drop_first() =~= named.skip(i + 1));
        }
        match GrainKey::from_name(key.as_str()) {
            Some(_) => {},
            None => {
                return Err("unknown parallel grain");
            },
        }
        if value == 0 {
            return Err("parallel grains must be positive integers");
        }
        i = i + 1;
    }
    proof {
        assert(named.skip(i as int).len() == 0);
    }
    let mut i: usize = 0;
    while i < pairs.len()
        invariant
            named == named_pairs(pairs@),
            i <= pairs@.len(),
            grains.wf(),
            forall|j: int|
                0 <= j < pairs@.len() ==> key_named(#[trigger] named[j].0) is Some && named[j].1
                    > 0,
            forall|k: GrainKey| #[trigger]
                grains.grain(k) == value_after_writes(
                    named.take(i as int),
                    k,
                    old(grains).grain(k),
                ),
        decreases pairs@.len() - i,
    {
        let key: &String = &pairs[i].0;
        let value: usize = pairs[i].1;
        let ghost mid = *grains;
        proof {
            assert(named[i as int] == (key@, value));
            assert(key_named(named[i as int].0) is Some && named[i as int].1 > 0);
            assert(key_named(key@) is Some && value > 0);
        }
        match set_parallel_grain(grains, key.as_str(), value) {
            Ok(_) => {},
            Err(e) => {
                return Err(e);
            },
        }
        proof {
            let t = named.take(i + 1);
            assert(t.drop_last() =~= named.take(i as int));
            assert(t.last() == named[i as int]);
            assert forall|k: GrainKey| #[trigger]
                grains.grain(k) == value_after_writes(t, k, old(grains).grain(k)) by {
                if key_named(key@) == Some(k) {
                } else {
                    assert(mid.grain(k) == value_after_writes(
                        named.take(i as int),
                        k,
                        old(grains).grain(k),
                    ));
                }
            }
        }
        i = i + 1;
    }
    proof {
        assert(named.take(i as int) =~= named);
    }
    Ok(parallel_grains(grains))
}

/// The keys in name order.
fn keys_in_name_order() -> (keys: Vec<GrainKey>)
    ensures
        keys@.len() == GRAIN_COUNT,
        forall|i: int| 0 <= i < GRAIN_COUNT ==> #[trigger] keys@[i] == key_in_name_order(i),
{
    let mut keys: Vec<GrainKey> = Vec::new();
    keys.push(GrainKey::AxisOrderMedian);
    keys.push(GrainKey::AxisOrderPercentile);
    keys.push(GrainKey::AxisScanNan);
    keys.push(GrainKey::AxisScanPlain);
    keys.push(GrainKey::AxisScanVar);
    keys.push(GrainKey::AxisWeighted);
    keys.push(GrainKey::Minmax1d);
    keys
}

/// All grains as `(name, value)` pairs, one per key, in name order.
pub fn parallel_grains(grains: &mut GrainCache) -> (r: Vec<(&'static str, usize)>)
    requires
        old(grains).wf(),
    ensures
        final(grains).wf(),
        forall|k: GrainKey| #[trigger] final(grains).grain(k) == old(grains).grain(k),
        r@.len() == GRAIN_COUNT,
        forall|i: int|
            0 <= i < GRAIN_COUNT ==> (#[trigger] r@[i]).0@ == key_name(key_in_name_order(i))
                && r@[i].1 == old(grains).grain(key_in_name_order(i)),
{
    let keys = keys_in_name_order();
    let mut out: Vec<(&'static str, usize)> = Vec::new();
    let mut i: usize = 0;
    while i < keys.len()
        invariant
            keys@.len() == GRAIN_COUNT,
            forall|j: int| 0 <= j < GRAIN_COUNT ==> #[trigger] keys@[j] == key_in_name_order(j),
            i <= keys.len(),
            out@.len() == i,
            grains.wf(),
            forall|k: GrainKey| #[trigger] grains.grain(k) == old(grains).grain(k),
            forall|j: int|
                0 <= j < i ==> (#[trigger] out@[j]).0@ == key_name(key_in_name_order(j))
                    && out@[j].1 == old(grains).grain(key_in_name_order(j)),
        decreases keys.len() - i,
    {
        let k = keys[i];
        let v = grains.cached_value(k);
        out.push((k.name(), v));
        i = i + 1;
    }
    out
}

/// The built-in grains as `(name, value)` pairs, one per key, in name order.
pub fn default_parallel_grains() -> (r: Vec<(&'static str, usize)>)
    ensures
        r@.len() == GRAIN_COUNT,
        forall|i: int|
            0 <= i < GRAIN_COUNT ==> (#[trigger] r@[i]).0@ == key_name(key_in_name_order(i))
                && r@[i].1 == default_of(key_in_name_order(i)),
{
    let keys = keys_in_name_order();
    let mut out: Vec<(&'static str, usize)> = Vec::new();
    let mut i: usize = 0;
    while i < keys.len()
        invariant
            keys@.len() == GRAIN_COUNT,
            forall|j: int| 0 <= j < GRAIN_COUNT ==> #[trigger] keys@[j] == key_in_name_order(j),
            i <= keys.len(),
            out@.len() == i,
            forall|j: int|
                0 <= j < i ==> (#[trigger] out@[j]).0@ == key_name(key_in_name_order(j))
                    && out@[j].1 == default_of(key_in_name_order(j)),
        decreases keys.len() - i,
    {
        let k = keys[i];
        out.push((k.name(), k.default_grain()));
        i = i + 1;
    }
    out
}

// ---------------------------------------------------------------------------
// chunking
// ---------------------------------------------------------------------------

/// The number of chunks for `work` items at `grain` items per chunk, at least
/// one and at most the thread count (a thread count of 0 counts as 1).
pub open spec fn chunk_count(work: int, grain: int, num_threads: int) -> int {
    let threads = if num_threads < 1 {
        1
    } else {
        num_threads
    };
    let g = if grain < 1 {
        1
    } else {
        grain
    };
    let chunks = work / g;
    if chunks < 1 {
        1
    } else if chunks > threads {
        threads
    } else {
        chunks
    }
}

/// Number of chunks to split `work` items into, given a grain and a thread
/// count.
pub fn chunks_for(work: usize, grain: usize, num_threads: usize) -> (c: usize)
    ensures
        c == chunk_count(work as int, grain as int, num_threads as int),
        1 <= c,
        c <= if num_threads < 1 {
            1
        } else {
            num_threads
        },
{
    let num_threads = if num_threads < 1 {
        1
    } else {
        num_threads
    };
    let grain = if grain < 1 {
        1
    } else {
        grain
    };
    let chunks = work / grain;
    if chunks < 1 {
        1
    } else if chunks > num_threads {
        num_threads
    } else {
        chunks
    }
}

/// `rayon::current_num_threads`: the number of threads of the rayon pool that
/// the caller runs in, or of the global pool. The count depends on the machine
/// and on how the pool was configured, so nothing is stated of it.
#[verifier::external_body]
fn current_num_threads() -> usize {
    rayon::current_num_threads()
}

/// The product, or `usize::MAX` when it overflows.
pub open spec fn saturating_product(a: usize, b: usize) -> int {
    if a * b > usize::MAX {
        usize::MAX as int
    } else {
        a * b
    }
}

/// Number of chunks for an axis reduction of `outer` outputs over `n` items of
/// class `class`: [`chunks_for`] of the work `outer * n` (saturating), the
/// class's grain and the current rayon thread count.
pub fn axis_parallel_chunks(
    grains: &mut GrainCache,
    class: AxisParallelClass,
    outer: usize,
    n: usize,
) -> (c: usize)
    requires
        old(grains).wf(),
    ensures
        final(grains).wf(),
        forall|k: GrainKey| #[trigger] final(grains).grain(k) == old(grains).grain(k),
        1 <= c,
        exists|threads: usize|
            c == chunk_count(
                saturating_product(outer, n),
                old(grains).grain(class_key(class)) as int,
                threads as int,
            ),
{
    let key = match class {
        AxisParallelClass::ScanPlain => GrainKey::AxisScanPlain,
        AxisParallelClass::ScanNan => GrainKey::AxisScanNan,
        AxisParallelClass::ScanVar => GrainKey::AxisScanVar,
        AxisParallelClass::Weighted => GrainKey::AxisWeighted,
        AxisParallelClass::OrderMedian => GrainKey::AxisOrderMedian,
        AxisParallelClass::OrderPercentile => GrainKey::AxisOrderPercentile,
    };
    let grain = grains.cached_value(key);
    let work = match outer.checked_mul(n) {
        Some(w) => w,
        None => usize::MAX,
    };
    let threads = current_num_threads();
    let c = chunks_for(work, grain, threads);
    proof {
        assert(key == class_key(class));
        assert(work as int == saturating_product(outer, n));
        assert(c == chunk_count(
            saturating_product(outer, n),
            old(grains).grain(class_key(class)) as int,
            threads as int,
        ));
    }
    c
}

/// Number of chunks for a 1-D min/max scan of `len` values.
pub fn minmax_1d_parallel_chunks(grains: &mut GrainCache, len: usize) -> (c: usize)
    requires
        old(grains).wf(),
    ensures
        final(grains).wf(),
        forall|k: GrainKey| #[trigger] final(grains).grain(k) == old(grains).grain(k),
        1 <= c,
        exists|threads: usize|
            c == chunk_count(len as int, old(grains).grain(GrainKey::Minmax1d) as int, threads as int),
{
    let grain = minmax_1d_grain(grains);
    let threads = current_num_threads();
    chunks_for(len, grain, threads)
}

// ---------------------------------------------------------------------------
// laws
// ---------------------------------------------------------------------------

/// A positive value written under a known name is what a read under that
/// name gives next.
pub proof fn lemma_read_after_write(
    g0: GrainCache,
    g1: GrainCache,
    g2: GrainCache,
    key: Seq<char>,
    value: usize,
    written: Result<usize, &'static str>,
    read: Result<usize, &'static str>,
)
    requires
        key_named(key) is Some,
        value > 0,
        write_outcome(g0, g1, key, value, written),
        read_outcome(g1, g2, key, read),
    ensures
        written == Ok::<usize, &'static str>(value),
        read == Ok::<usize, &'static str>(value),
{
}

/// Two reads in a row give the same value (or both fail): a read changes
/// nothing.
pub proof fn lemma_read_is_stable(
    g0: GrainCache,
    g1: GrainCache,
    g2: GrainCache,
    key: Seq<char>,
    first: Result<usize, &'static str>,
    second: Result<usize, &'static str>,
)
    requires
        read_outcome(g0, g1, key, first),
        read_outcome(g1, g2, key, second),
    ensures
        first is Ok == second is Ok,
        first is Ok ==> first == second,
{
}

/// Every grain a table gives is positive, whatever override text it was
/// built from and whatever was written to it.
pub proof fn lemma_grains_positive(g: GrainCache, k: GrainKey)
    requires
        g.wf(),
    ensures
        g.grain(k) > 0,
{
}

/// Each key is found again under its own name.
pub proof fn lemma_name_round_trip(k: GrainKey)
    ensures
        key_named(key_name(k)) == Some(k),
{
    lemma_key_names_distinct();
}

/// More work never gives fewer chunks.
pub proof fn lemma_chunk_count_monotone(w1: int, w2: int, grain: int, num_threads: int)
    requires
        0 <= w1 <= w2,
    ensures
        chunk_count(w1, grain, num_threads) <= chunk_count(w2, grain, num_threads),
{
    let g = if grain < 1 {
        1
    } else {
        grain
    };
    vstd::arithmetic::div_mod::lemma_div_is_ordered(w1, w2, g);
}

/// The decimal digit of `d < 10`.
pub open spec fn digit_char(d: int) -> char {
    if d == 0 {
        '0'
    } else if d == 1 {
        '1'
    } else if d == 2 {
        '2'
    } else if d == 3 {
        '3'
    } else if d == 4 {
        '4'
    } else if d == 5 {
        '5'
    } else if d == 6 {
        '6'
    } else if d == 7 {
        '7'
    } else if d == 8 {
        '8'
    } else {
        '9'
    }
}

/// The decimal text of `v`, without sign or leading zeros.
pub open spec fn decimal_text(v: nat) -> Seq<char>
    decreases v,
{
    if v < 10 {
        seq![digit_char(v as int)]
    } else {
        decimal_text(v / 10).push(digit_char((v % 10) as int))
    }
}

proof fn lemma_decimal_text_value(v: nat)
    ensures
        decimal_text(v).len() > 0,
        all_digits(decimal_text(v)),
        decimal_text(v)[0] != '+',
        decimal_value(decimal_text(v)) == v,
    decreases v,
{
    if v < 10 {
        let t = decimal_text(v);
        assert(t.drop_last() =~= Seq::<char>::empty());
        assert(decimal_value(t.drop_last()) == 0);
    } else {
        lemma_decimal_text_value(v / 10);
        let t = decimal_text(v);
        assert(t.drop_last() =~= decimal_text(v / 10));
        assert(t.last() == digit_char((v % 10) as int));
        assert(t[0] == decimal_text(v / 10)[0]);
    }
}

/// The decimal text of every `usize` reads back as that `usize`.
pub proof fn lemma_decimal_text_parses(v: usize)
    ensures
        usize_from_decimal(decimal_text(v as nat)) == Some(v),
{
    lemma_decimal_text_value(v as nat);
}

/// An override that is the decimal text of a positive `usize` is the grain,
/// whatever the default, above it or below it.
pub proof fn lemma_override_wins(v: usize, default: usize)
    requires
        v > 0,
    ensures
        grain_from_text(Some(decimal_text(v as nat)), default) == v,
{
    lemma_decimal_text_parses(v);
}

/// A grain without override text, or with text that is not a positive
/// `usize`, is its default.
pub proof fn lemma_default_without_override(text: Option<Seq<char>>, default: usize)
    requires
        match text {
            Some(s) => match usize_from_decimal(s) {
                Some(v) => v == 0,
                None => true,
            },
            None => true,
        },
    ensures
        grain_from_text(text, default) == default,
{
}

/// A batch whose pairs all name known grains with positive values is
/// accepted, whatever the values.
pub proof fn lemma_valid_batch_accepted(pairs: Seq<(Seq<char>, usize)>)
    requires
        forall|i: int|
            0 <= i < pairs.len() ==> key_named(#[trigger] pairs[i].0) is Some && pairs[i].1 > 0,
    ensures
        batch_refusal(pairs) is None,
    decreases pairs.len(),
{
    if pairs.len() > 0 {
        assert(key_named(pairs[0].0) is Some && pairs[0].1 > 0);
        let rest = pairs.drop_first();
        assert forall|i: int| 0 <= i < rest.len() implies key_named(#[trigger] rest[i].0) is Some
            && rest[i].1 > 0 by {
            assert(rest[i] == pairs[i + 1]);
        }
        lemma_valid_batch_accepted(rest);
    }
}

/// A batch with a pair naming no grain, or with a zero value, is refused.
pub proof fn lemma_invalid_batch_refused(pairs: Seq<(Seq<char>, usize)>, bad: int)
    requires
        0 <= bad < pairs.len(),
        key_named(pairs[bad].0) is None || pairs[bad].1 == 0,
    ensures
        batch_refusal(pairs) is Some,
    decreases pairs.len(),
{
    if bad > 0 && key_named(pairs[0].0) is Some && pairs[0].1 != 0 {
        let rest = pairs.drop_first();
        assert(rest[bad - 1] == pairs[bad]);
        lemma_invalid_batch_refused(rest, bad - 1);
    }
}

/// After a batch of writes, a grain reads the value written last under its
/// name, whatever came before; a grain not named keeps its value.
pub proof fn lemma_last_write_wins(
    pairs: Seq<(Seq<char>, usize)>,
    k: GrainKey,
    v: usize,
    otherwise: usize,
)
    ensures
        value_after_writes(pairs.push((key_name(k), v)), k, otherwise) == v,
        (forall|i: int| 0 <= i < pairs.len() ==> key_named(#[trigger] pairs[i].0) != Some(k))
            ==> value_after_writes(pairs, k, otherwise) == otherwise,
    decreases pairs.len(),
{
    lemma_name_round_trip(k);
    assert(pairs.push((key_name(k), v)).last() == (key_name(k), v));
    if pairs.len() > 0 {
        let init = pairs.drop_last();
        if forall|i: int| 0 <= i < pairs.len() ==> key_named(#[trigger] pairs[i].0) != Some(k) {
            assert(key_named(pairs.last().0) != Some(k));
            assert forall|i: int| 0 <= i < init.len() implies key_named(#[trigger] init[i].0)
                != Some(k) by {
                assert(init[i] == pairs[i]);
            }
        }
        lemma_last_write_wins(init, k, v, otherwise);
    }
}

/// The chunk count splits `work` into chunks of about `grain` items: at
/// least one chunk and at most the thread count (at least one); within those
/// bounds, `c` chunks of `grain` items fit in the work and `c + 1` do not.
pub proof fn lemma_chunk_count_meaning(work: int, grain: int, num_threads: int)
    requires
        work >= 0,
    ensures
        ({
            let c = chunk_count(work, grain, num_threads);
            let t = if num_threads < 1 {
                1
            } else {
                num_threads
            };
            let g = if grain < 1 {
                1
            } else {
                grain
            };
            &&& 1 <= c <= t
            &&& c == 1 || c * g <= work
            &&& c == t || work < (c + 1) * g
        }),
{
    let t = if num_threads < 1 {
        1
    } else {
        num_threads
    };
    let g = if grain < 1 {
        1
    } else {
        grain
    };
    let q = work / g;
    assert(q * g <= work < (q + 1) * g) by (nonlinear_arith)
        requires
            g >= 1,
            work >= 0,
            q == work / g,
    ;
    let c = chunk_count(work, grain, num_threads);
    assert(q >= 0) by (nonlinear_arith)
        requires
            g >= 1,
            work >= 0,
            q == work / g,
    ;
    if q < 1 {
        assert(c == 1);
        assert(work < (c + 1) * g) by (nonlinear_arith)
            requires
                c == 1,
                work < (q + 1) * g,
                q == 0,
                g >= 1,
        ;
    } else if q > t {
        assert(c == t);
        assert(c * g <= work) by (nonlinear_arith)
            requires
                c == t,
                t <= q,
                g >= 1,
                q * g <= work,
        ;
    } else {
        assert(c == q);
    }
}

/// The saturating product is the product when it fits in a `usize`, and
/// `usize::MAX` otherwise; it never exceeds either bound.
pub proof fn lemma_saturating_product_meaning(a: usize, b: usize)
    ensures
        a * b <= usize::MAX ==> saturating_product(a, b) == a * b,
        a * b > usize::MAX ==> saturating_product(a, b) == usize::MAX,
        saturating_product(a, b) <= a * b,
        saturating_product(a, b) <= usize::MAX,
{
    assert(a * b >= 0) by (nonlinear_arith);
}

/// Setting one grain: a positive value is accepted and read from then on,
/// whatever its size; zero is refused and changes nothing.
pub proof fn lemma_set_outcome_meaning(
    before: &GrainCache,
    after: &GrainCache,
    key: GrainKey,
    value: usize,
    r: Result<(), &'static str>,
)
    requires
        set_outcome(before, after, key, value, r),
    ensures
        value > 0 ==> r is Ok && after.grain(key) == value,
        value == 0 ==> r is Err && after.grain(key) == before.grain(key),
{
}

/// Reading a grain by a name that names no grain is an error; reading a
/// known grain gives its value.
pub proof fn lemma_read_outcome_meaning(
    before: GrainCache,
    after: GrainCache,
    k: GrainKey,
    r: Result<usize, &'static str>,
)
    requires
        read_outcome(before, after, key_name(k), r),
    ensures
        r == Ok::<usize, &'static str>(before.grain(k)),
{
    lemma_name_round_trip(k);
}

/// The named pairs of a batch are its pairs, in order, each name taken as
/// its characters.
pub proof fn lemma_named_pairs_meaning(pairs: Seq<(String, usize)>)
    ensures
        named_pairs(pairs).len() == pairs.len(),
        forall|i: int|
            0 <= i < pairs.len() ==> #[trigger] named_pairs(pairs)[i] == (pairs[i].0@, pairs[i].1),
{
}

/// Text with a character that is not a decimal digit, other than one
/// leading `+`, is not a `usize`; neither is the empty text.
pub proof fn lemma_non_decimal_refused(s: Seq<char>, bad: int)
    requires
        0 <= bad < s.len(),
        !('0' <= s[bad] <= '9'),
        bad > 0 || s[0] != '+',
    ensures
        usize_from_decimal(s) is None,
        usize_from_decimal(Seq::<char>::empty()) is None,
{
    if s[0] == '+' {
        assert(s.drop_first()[bad - 1] == s[bad]);
    }
}

} // verus!
