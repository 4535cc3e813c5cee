//! The recipe's data: targets, their kinds and options, and their mathematical views.
use vstd::prelude::*;

verus! {

/// A parsed recipe file: whether the last read succeeded, where the file lives,
/// and its targets in declaration order.
#[derive(Debug)]
pub struct Recipe {
    pub ok: bool,
    pub path: String,
    pub target_count: u64,
    pub targets: Vec<Target>,
}

/// One build unit: a name, a kind, its source files and its options.
#[derive(Clone, Debug, PartialEq, Eq)]
pub struct Target {
    pub name: String,
    pub kind: TargetType,
    pub files: Vec<String>,
    pub options: TargetOptions,
}

/// What a target builds. `Temporary` marks a target whose declaration has not
/// been read yet; a finished target never has it.
#[derive(Copy, Clone, Debug, PartialEq, Eq, Structural)]
pub enum TargetType {
    SharedLib,
    StaticLib,
    Executable,
    Temporary,
}

/// How a library named by `$use` is linked.
#[derive(Copy, Clone, Debug, PartialEq, Eq, Structural)]
pub enum Use {
    Static,
    Dynamic,
}

/// The two states of the reader: between targets, or inside a target's body.
#[derive(Copy, Clone, Debug, PartialEq, Eq, Structural)]
pub enum ReadState {
    Start,
    InsideTarget,
}

/// The flags and lists that option lines set in a target's body.
#[derive(Clone, Debug, PartialEq, Eq)]
pub struct TargetOptions {
    pub deps: bool,
    pub refs: bool,
    pub nolibc: bool,
    pub generate_c: bool,
    pub generate_ir: bool,
    pub lib_use: Vec<(String, Use)>,
    pub export: Vec<String>,
    pub config: Vec<String>,
    pub warnings: Vec<String>,
}

/// The view of `TargetOptions`: strings as character sequences.
pub struct OptionsModel {
    pub deps: bool,
    pub refs: bool,
    pub nolibc: bool,
    pub generate_c: bool,
    pub generate_ir: bool,
    pub lib_use: Seq<(Seq<char>, Use)>,
    pub export: Seq<Seq<char>>,
    pub config: Seq<Seq<char>>,
    pub warnings: Seq<Seq<char>>,
}

/// The view of a `Target`.
pub struct TargetModel {
    pub name: Seq<char>,
    pub kind: TargetType,
    pub files: Seq<Seq<char>>,
    pub options: OptionsModel,
}

/// The view of a `Recipe`.
pub struct RecipeModel {
    pub ok: bool,
    pub path: Seq<char>,
    pub target_count: nat,
    pub targets: Seq<TargetModel>,
}

pub open spec fn strings_view(v: Seq<String>) -> Seq<Seq<char>> {
    v.map_values(|s: String| s@)
}

pub open spec fn uses_view(v: Seq<(String, Use)>) -> Seq<(Seq<char>, Use)> {
    v.map_values(|p: (String, Use)| (p.0@, p.1))
}

pub open spec fn targets_view(v: Seq<Target>) -> Seq<TargetModel> {
    v.map_values(|t: Target| t@)
}

impl View for TargetOptions {
    type V = OptionsModel;

    open spec fn view(&self) -> OptionsModel {
        OptionsModel {
            deps: self.deps,
            refs: self.refs,
            nolibc: self.nolibc,
            generate_c: self.generate_c,
            generate_ir: self.generate_ir,
            lib_use: uses_view(self.lib_use@),
            export: strings_view(self.export@),
            config: strings_view(self.config@),
            warnings: strings_view(self.warnings@),
        }
    }
}

impl View for Target {
    type V = TargetModel;

    open spec fn view(&self) -> TargetModel {
        TargetModel {
            name: self.name@,
            kind: self.kind,
            files: strings_view(self.files@),
            options: self.options@,
        }
    }
}

impl View for Recipe {
    type V = RecipeModel;

    open spec fn view(&self) -> RecipeModel {
        RecipeModel {
            ok: self.ok,
            path: self.path@,
            target_count: self.target_count as nat,
            targets: targets_view(self.targets@),
        }
    }
}

/// Options with every flag off and every list empty.
pub open spec fn empty_options() -> OptionsModel {
    OptionsModel {
        deps: false,
        refs: false,
        nolibc: false,
        generate_c: false,
        generate_ir: false,
        lib_use: seq![],
        export: seq![],
        config: seq![],
        warnings: seq![],
    }
}

/// The target that a declaration starts from: no name, kind `Temporary`, nothing in it.
pub open spec fn fresh_target() -> TargetModel {
    TargetModel { name: seq![], kind: TargetType::Temporary, files: seq![], options: empty_options() }
}

impl TargetModel {
    /// A finished target: a real kind, no file twice, no library use twice.
    pub open spec fn wf(self) -> bool {
        &&& self.kind != TargetType::Temporary
        &&& self.files.no_duplicates()
        &&& self.options.lib_use.no_duplicates()
    }
}

impl RecipeModel {
    /// Every target finished, and the count equal to the number of targets.
    pub open spec fn wf(self) -> bool {
        &&& self.target_count == self.targets.len()
        &&& forall|i: int| 0 <= i < self.targets.len() ==> (#[trigger] self.targets[i]).wf()
    }
}

/// The word that names a kind in a declaration line.
pub open spec fn kind_word(k: TargetType) -> Seq<char> {
    match k {
        TargetType::Executable => "executable"@,
        TargetType::SharedLib => "shared"@,
        TargetType::StaticLib => "static"@,
        TargetType::Temporary => seq![],
    }
}

/// The word that names a linkage in a `$use` line.
pub open spec fn use_word(u: Use) -> Seq<char> {
    match u {
        Use::Static => "static"@,
        Use::Dynamic => "dynamic"@,
    }
}

impl TargetType {
    /// The word for this kind; a `Temporary` kind has none.
    pub fn to_string(&self) -> (r: String)
        requires
            *self != TargetType::Temporary,
        ensures
            r@ == kind_word(*self),
    {
        match *self {
            TargetType::Executable => String::from_str("executable"),
            TargetType::SharedLib => String::from_str("shared"),
            _ => String::from_str("static"),
        }
    }
}

impl Default for TargetType {
    fn default() -> (r: TargetType)
        ensures
            r == TargetType::Temporary,
    {
        TargetType::Temporary
    }
}

impl Use {
    /// The word for this linkage.
    pub fn to_string(&self) -> (r: String)
        ensures
            r@ == use_word(*self),
    {
        match *self {
            Use::Static => String::from_str("static"),
            Use::Dynamic => String::from_str("dynamic"),
        }
    }
}

impl TargetOptions {
    /// Options with every flag off and every list empty.
    pub fn new() -> (r: TargetOptions)
        ensures
            r@ == empty_options(),
    {
        let r = TargetOptions {
            deps: false,
            refs: false,
            nolibc: false,
            generate_c: false,
            generate_ir: false,
            lib_use: Vec::new(),
            export: Vec::new(),
            config: Vec::new(),
            warnings: Vec::new(),
        };
        assert(r@.lib_use =~= seq![]);
        assert(r@.export =~= seq![]);
        assert(r@.config =~= seq![]);
        assert(r@.warnings =~= seq![]);
        r
    }
}

impl Target {
    /// A target not declared yet: no name, kind `Temporary`, no files, empty options.
    pub fn new() -> (r: Target)
        ensures
            r@ == fresh_target(),
    {
        let r = Target {
            name: String::new(),
            kind: TargetType::Temporary,
            files: Vec::new(),
            options: TargetOptions::new(),
        };
        assert(r@.files =~= seq![]);
        r
    }
}

impl Recipe {
    /// An empty recipe, marked successful, with no path yet.
    pub fn new() -> (r: Recipe)
        ensures
            r@ == (RecipeModel { ok: true, path: seq![], target_count: 0, targets: seq![] }),
            r@.wf(),
    {
        let r = Recipe { ok: true, path: String::new(), target_count: 0, targets: Vec::new() };
        assert(r@.targets =~= seq![]);
        r
    }

    /// Appends a finished target.
    pub fn add_target(&mut self, trg: Target)
        requires
            old(self)@.wf(),
            trg@.wf(),
        ensures
            final(self)@ == (RecipeModel {
                target_count: old(self)@.target_count + 1,
                targets: old(self)@.targets.push(trg@),
                ..old(self)@
            }),
            final(self)@.wf(),
    {
        let ghost before = self.targets@;
        self.targets.push(trg);
        self.target_count = self.targets.len() as u64;
        assert(targets_view(self.targets@) =~= targets_view(before).push(trg@));
    }
}

impl Default for TargetOptions {
    fn default() -> (r: TargetOptions)
        ensures
            r@ == empty_options(),
    {
        TargetOptions::new()
    }
}

impl Default for Target {
    fn default() -> (r: Target)
        ensures
            r@ == fresh_target(),
    {
        Target::new()
    }
}

impl Default for Recipe {
    /// An empty recipe that has not been read: `ok` is false.
    fn default() -> (r: Recipe)
        ensures
            r@ == (RecipeModel { ok: false, path: seq![], target_count: 0, targets: seq![] }),
            r@.wf(),
    {
        let mut r = Recipe::new();
        r.ok = false;
        r
    }
}

fn strings_distinct(v: &Vec<String>) -> (r: bool)
    ensures
        r == strings_view(v@).no_duplicates(),
{
    let ghost sv = strings_view(v@);
    let mut i: usize = 0;
    while i < v.len()
        invariant
            i <= v@.len(),
            sv == strings_view(v@),
            forall|a: int, b: int| 0 <= a < i && 0 <= b < i && a != b ==> sv[a] != sv[b],
        decreases v@.len() - i,
    {
        let mut j: usize = 0;
        while j < i
            invariant
                j <= i < v@.len(),
                sv == strings_view(v@),
                forall|b: int| 0 <= b < j ==> sv[b] != sv[i as int],
            decreases i - j,
        {
            if v[j] == v[i] {
                assert(sv[j as int] == sv[i as int]);
                return false;
            }
            j = j + 1;
        }
        i = i + 1;
    }
    true
}

fn uses_distinct(v: &Vec<(String, Use)>) -> (r: bool)
    ensures
        r == uses_view(v@).no_duplicates(),
{
    let ghost uv = uses_view(v@);
    let mut i: usize = 0;
    while i < v.len()
        invariant
            i <= v@.len(),
            uv == uses_view(v@),
            forall|a: int, b: int| 0 <= a < i && 0 <= b < i && a != b ==> uv[a] != uv[b],
        decreases v@.len() - i,
    {
        let mut j: usize = 0;
        while j < i
            invariant
                j <= i < v@.len(),
                uv == uses_view(v@),
                forall|b: int| 0 <= b < j ==> uv[b] != uv[i as int],
            decreases i - j,
        {
            if v[j].0 == v[i].0 && v[j].1 == v[i].1 {
                assert(uv[j as int] == uv[i as int]);
                return false;
            }
            j = j + 1;
        }
        i = i + 1;
    }
    true
}

impl Target {
    /// Tells whether this target is finished: a real kind, no file twice, no
    /// library use twice.
    pub fn is_finished(&self) -> (r: bool)
        ensures
            r == self@.wf(),
    {
        self.kind != TargetType::Temporary && strings_distinct(&self.files)
            && uses_distinct(&self.options.lib_use)
    }
}

impl Recipe {
    /// Tells whether every target is finished and the count matches the targets.
    pub fn is_well_formed(&self) -> (r: bool)
        ensures
            r == self@.wf(),
    {
        if self.targets.len() as u64 != self.target_count {
            return false;
        }
        let ghost tv = targets_view(self.targets@);
        let mut i: usize = 0;
        while i < self.targets.len()
            invariant
                i <= self.targets@.len(),
                tv == targets_view(self.targets@),
                forall|k: int| 0 <= k < i ==> (#[trigger] tv[k]).wf(),
            decreases self.targets@.len() - i,
        {
            if !self.targets[i].is_finished() {
                assert(!tv[i as int].wf());
                return false;
            }
            i = i + 1;
        }
        true
    }
}

} // verus!
