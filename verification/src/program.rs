//! The program loader and the immutable `Program` it produces.
//!
//! `Program::new` walks an artifact tree, validates its schema, decodes the
//! data segment into machine words reduced modulo the declared prime, builds
//! the identifier table, the per-pc hint lists and the reference manager,
//! and resolves the entrypoint name to a program counter.  The whole load is
//! specified by the spec-level [`load_model`]: the loader returns exactly the
//! program that `load_model` describes, or exactly the error it describes.

use crate::artifact::{field_of, get_field, Node};
use crate::bignum::{dec_val, is_dec_seq, parse_dec_usize, BigNat};
use crate::relocatable::{MaybeRelocatable, Relocatable, WordModel};
use vstd::prelude::*;
use vstd::string::*;

verus! {

/// Why a load failed.
#[derive(Debug, Clone, Copy, PartialEq, Eq, Structural)]
pub enum ProgramError {
    /// The artifact is not a record, a required top-level field (`prime`,
    /// `data`, `identifiers`, `reference_manager`) is absent, or `prime`,
    /// `data` or `builtins` has the wrong shape.
    MalformedArtifact,
    /// An identifier record has a field of the wrong shape, or two
    /// identifier entries share a name.
    InvalidIdentifier,
    /// A hint entry has the wrong shape, or two hint keys name the same
    /// program counter.
    InvalidHint,
    /// A reference-manager entry has the wrong shape.
    InvalidReference,
    /// The artifact's declared prime differs from the expected one.
    PrimeMismatch,
}

/// Spec-level identifier: optional program counter, optional type tag,
/// optional constant value (reduced modulo the prime).
pub struct IdentModel {
    pub pc: Option<nat>,
    pub type_tag: Option<Seq<char>>,
    pub value: Option<nat>,
}

/// Spec-level hint: opaque code, the reference names it may use, opaque
/// flow-tracking metadata.
pub struct HintModel {
    pub code: Seq<char>,
    pub accessible_scopes: Seq<Seq<char>>,
    pub flow_tracking_data: Seq<Seq<char>>,
}

/// Spec-level reference-manager entry.
pub struct RefModel {
    pub name: Seq<char>,
    pub value_type: Seq<char>,
    pub definition: Seq<char>,
}

/// Spec-level program: what a successful load denotes.
pub struct ProgramModel {
    pub builtins: Seq<Seq<char>>,
    pub prime: nat,
    pub data: Seq<WordModel>,
    pub main: Option<nat>,
    pub hints: Seq<(nat, Seq<HintModel>)>,
    pub reference_manager: Seq<RefModel>,
    pub identifiers: Seq<(Seq<char>, IdentModel)>,
}

/// Decode every node of a list, in order; fail if any node fails.
pub open spec fn list_model<A>(ns: Seq<Node>, f: spec_fn(Node) -> Option<A>) -> Option<Seq<A>>
    decreases ns.len(),
{
    if ns.len() == 0 {
        Some(Seq::empty())
    } else {
        match list_model(ns.drop_last(), f) {
            Option::None => Option::None,
            Option::Some(rest) => match f(ns.last()) {
                Option::None => Option::None,
                Option::Some(a) => Option::Some(rest.push(a)),
            },
        }
    }
}

pub proof fn lemma_list_model_index<A>(ns: Seq<Node>, f: spec_fn(Node) -> Option<A>, s: Seq<A>)
    requires
        list_model(ns, f) == Some(s),
    ensures
        s.len() == ns.len(),
        forall|i: int| 0 <= i < ns.len() ==> f(#[trigger] ns[i]) == Some(s[i]),
    decreases ns.len(),
{
    if ns.len() > 0 {
        let rest = list_model(ns.drop_last(), f).unwrap();
        lemma_list_model_index(ns.drop_last(), f, rest);
        assert forall|i: int| 0 <= i < ns.len() implies f(#[trigger] ns[i]) == Some(s[i]) by {
            if i < ns.len() - 1 {
                assert(ns.drop_last()[i] == ns[i]);
            } else {
                assert(ns[i] == ns.last());
            }
        }
    }
}

pub proof fn lemma_list_model_none_extend<A>(ns: Seq<Node>, f: spec_fn(Node) -> Option<A>, j: int)
    requires
        0 <= j <= ns.len(),
        list_model(ns.take(j), f) is None,
    ensures
        list_model(ns, f) is None,
    decreases ns.len() - j,
{
    if j == ns.len() {
        assert(ns.take(j) =~= ns);
    } else {
        assert(ns.take(j + 1).drop_last() =~= ns.take(j));
        lemma_list_model_none_extend(ns, f, j + 1);
    }
}

/// The text of a text node.
pub open spec fn text_model(n: Node) -> Option<Seq<char>> {
    match n {
        Node::Text(s) => Some(s@),
        _ => None,
    }
}

pub open spec fn text_model_fn() -> spec_fn(Node) -> Option<Seq<char>> {
    |n: Node| text_model(n)
}

pub open spec fn texts_model(ns: Seq<Node>) -> Option<Seq<Seq<char>>> {
    list_model(ns, text_model_fn())
}

/// The number a node encodes: a small integer directly, or a decimal digit
/// string.
pub open spec fn num_model(n: Node) -> Option<nat> {
    match n {
        Node::Uint(u) => Some(u as nat),
        Node::Text(s) => if is_dec_seq(s@) {
            Some(dec_val(s@))
        } else {
            None
        },
        _ => None,
    }
}

/// The machine word a data node encodes: a relocatable address written as a
/// record with `segment_index` and `offset`, or a field element reduced
/// modulo `prime`.
pub open spec fn word_model(n: Node, prime: nat) -> Option<WordModel> {
    match n {
        Node::Object(fs) => match (
            field_of(fs@, "segment_index"@),
            field_of(fs@, "offset"@),
        ) {
            (Some(Node::Uint(seg)), Some(Node::Uint(off))) => Some(
                WordModel::Address(seg as nat, off as nat),
            ),
            _ => None,
        },
        _ => match num_model(n) {
            Some(v) => Some(WordModel::Int(v % prime)),
            None => None,
        },
    }
}

pub open spec fn word_model_fn(prime: nat) -> spec_fn(Node) -> Option<WordModel> {
    |n: Node| word_model(n, prime)
}

/// The identifier record a node encodes: optional `pc` (small integer),
/// optional `type` (text), optional `value` (number, reduced modulo `prime`).
pub open spec fn ident_model(n: Node, prime: nat) -> Option<IdentModel> {
    match n {
        Node::Object(fs) => {
            let pcn = field_of(fs@, "pc"@);
            let tyn = field_of(fs@, "type"@);
            let van = field_of(fs@, "value"@);
            if (match pcn {
                None => true,
                Some(p) => p is Uint,
            }) && (match tyn {
                None => true,
                Some(t) => t is Text,
            }) && (match van {
                None => true,
                Some(v) => num_model(v) is Some,
            }) {
                Some(IdentModel {
                    pc: match pcn {
                        Some(Node::Uint(u)) => Some(u as nat),
                        _ => None,
                    },
                    type_tag: match tyn {
                        Some(Node::Text(s)) => Some(s@),
                        _ => None,
                    },
                    value: match van {
                        Some(v) => match num_model(v) {
                            Some(x) => Some(x % prime),
                            None => None,
                        },
                        None => None,
                    },
                })
            } else {
                None
            }
        },
        _ => None,
    }
}

/// The hint record a node encodes: required `code` (text), optional
/// `accessible_scopes` and `flow_tracking_data` (lists of text, empty when
/// absent).
pub open spec fn hint_model(n: Node) -> Option<HintModel> {
    match n {
        Node::Object(fs) => {
            let coden = field_of(fs@, "code"@);
            let scopesn = field_of(fs@, "accessible_scopes"@);
            let flown = field_of(fs@, "flow_tracking_data"@);
            match coden {
                Some(Node::Text(c)) => {
                    let sc = match scopesn {
                        None => Some(Seq::<Seq<char>>::empty()),
                        Some(Node::List(l)) => texts_model(l@),
                        Some(_) => None,
                    };
                    let fl = match flown {
                        None => Some(Seq::<Seq<char>>::empty()),
                        Some(Node::List(l)) => texts_model(l@),
                        Some(_) => None,
                    };
                    match (sc, fl) {
                        (Some(a), Some(b)) => Some(
                            HintModel { code: c@, accessible_scopes: a, flow_tracking_data: b },
                        ),
                        _ => None,
                    }
                },
                _ => None,
            }
        },
        _ => None,
    }
}

pub open spec fn hint_model_fn() -> spec_fn(Node) -> Option<HintModel> {
    |n: Node| hint_model(n)
}

/// The reference-manager entry a node encodes: `name`, `value_type` and
/// `definition`, all text.
pub open spec fn ref_model(n: Node) -> Option<RefModel> {
    match n {
        Node::Object(fs) => match (
            field_of(fs@, "name"@),
            field_of(fs@, "value_type"@),
            field_of(fs@, "definition"@),
        ) {
            (Some(Node::Text(a)), Some(Node::Text(b)), Some(Node::Text(c))) => Some(
                RefModel { name: a@, value_type: b@, definition: c@ },
            ),
            _ => None,
        },
        _ => None,
    }
}

pub open spec fn ref_model_fn() -> spec_fn(Node) -> Option<RefModel> {
    |n: Node| ref_model(n)
}

pub open spec fn key_in_idents(s: Seq<(Seq<char>, IdentModel)>, k: Seq<char>) -> bool {
    exists|i: int| 0 <= i < s.len() && #[trigger] s[i].0 == k
}

/// The identifier table a record encodes, in artifact order; entry names
/// must be unique.
pub open spec fn idents_model(fs: Seq<(String, Node)>, prime: nat) -> Option<
    Seq<(Seq<char>, IdentModel)>,
>
    decreases fs.len(),
{
    if fs.len() == 0 {
        Some(Seq::empty())
    } else {
        match idents_model(fs.drop_last(), prime) {
            Option::None => Option::None,
            Option::Some(rest) => if key_in_idents(rest, fs.last().0@) {
                Option::None
            } else {
                match ident_model(fs.last().1, prime) {
                    Option::None => Option::None,
                    Option::Some(m) => Option::Some(rest.push((fs.last().0@, m))),
                }
            },
        }
    }
}

pub proof fn lemma_idents_model_none_extend(fs: Seq<(String, Node)>, prime: nat, j: int)
    requires
        0 <= j <= fs.len(),
        idents_model(fs.take(j), prime) is None,
    ensures
        idents_model(fs, prime) is None,
    decreases fs.len() - j,
{
    if j == fs.len() {
        assert(fs.take(j) =~= fs);
    } else {
        assert(fs.take(j + 1).drop_last() =~= fs.take(j));
        lemma_idents_model_none_extend(fs, prime, j + 1);
    }
}

/// A hint key encodes a program counter: a decimal digit string whose value
/// fits the machine.
pub open spec fn hint_pc_model(k: Seq<char>) -> Option<nat> {
    if is_dec_seq(k) && dec_val(k) <= usize::MAX {
        Some(dec_val(k))
    } else {
        None
    }
}

pub open spec fn key_in_hints(s: Seq<(nat, Seq<HintModel>)>, k: nat) -> bool {
    exists|i: int| 0 <= i < s.len() && #[trigger] s[i].0 == k
}

/// The hints-by-pc table a record encodes, in artifact order; keys must be
/// distinct program counters, each value an ordered list of hint records.
pub open spec fn hints_map_model(fs: Seq<(String, Node)>) -> Option<Seq<(nat, Seq<HintModel>)>>
    decreases fs.len(),
{
    if fs.len() == 0 {
        Some(Seq::empty())
    } else {
        match hints_map_model(fs.drop_last()) {
            Option::None => Option::None,
            Option::Some(rest) => match hint_pc_model(fs.last().0@) {
                Option::None => Option::None,
                Option::Some(pc) => if key_in_hints(rest, pc) {
                    Option::None
                } else {
                    match fs.last().1 {
                        Node::List(l) => match list_model(l@, hint_model_fn()) {
                            Option::None => Option::None,
                            Option::Some(hs) => Option::Some(rest.push((pc, hs))),
                        },
                        _ => Option::None,
                    }
                },
            },
        }
    }
}

pub proof fn lemma_hints_map_model_none_extend(fs: Seq<(String, Node)>, j: int)
    requires
        0 <= j <= fs.len(),
        hints_map_model(fs.take(j)) is None,
    ensures
        hints_map_model(fs) is None,
    decreases fs.len() - j,
{
    if j == fs.len() {
        assert(fs.take(j) =~= fs);
    } else {
        assert(fs.take(j + 1).drop_last() =~= fs.take(j));
        lemma_hints_map_model_none_extend(fs, j + 1);
    }
}

/// First identifier with the given name.  Names are unique in a loaded
/// program, so first match and last match coincide.
pub open spec fn ident_lookup(ids: Seq<(Seq<char>, IdentModel)>, name: Seq<char>) -> Option<
    IdentModel,
>
    decreases ids.len(),
{
    if ids.len() == 0 {
        None
    } else if ids[0].0 == name {
        Some(ids[0].1)
    } else {
        ident_lookup(ids.skip(1), name)
    }
}

pub proof fn lemma_ident_lookup_key_in(ids: Seq<(Seq<char>, IdentModel)>, k: Seq<char>)
    ensures
        (ident_lookup(ids, k) is Some) == key_in_idents(ids, k),
    decreases ids.len(),
{
    if ids.len() == 0 {
    } else if ids[0].0 == k {
        assert(key_in_idents(ids, k));
    } else {
        lemma_ident_lookup_key_in(ids.skip(1), k);
        if key_in_idents(ids.skip(1), k) {
            let i = choose|i: int| 0 <= i < ids.skip(1).len() && ids.skip(1)[i].0 == k;
            assert(ids[i + 1].0 == k);
            assert(key_in_idents(ids, k));
        }
        if key_in_idents(ids, k) {
            let i = choose|i: int| 0 <= i < ids.len() && ids[i].0 == k;
            assert(i > 0);
            assert(ids.skip(1)[i - 1].0 == k);
            assert(key_in_idents(ids.skip(1), k));
        }
    }
}

/// The resolved entrypoint: the `pc` of identifier `"__main__." + entrypoint`,
/// absent when the identifier is absent or has no `pc`.
pub open spec fn main_model(ids: Seq<(Seq<char>, IdentModel)>, entrypoint: Seq<char>) -> Option<
    nat,
> {
    match ident_lookup(ids, "__main__."@ + entrypoint) {
        Some(id) => id.pc,
        None => None,
    }
}

pub open spec fn top_fields(a: Node) -> Option<Seq<(String, Node)>> {
    match a {
        Node::Object(fs) => Some(fs@),
        _ => None,
    }
}

pub open spec fn prime_model(fs: Seq<(String, Node)>) -> Result<nat, ProgramError> {
    match field_of(fs, "prime"@) {
        Option::None => Err(ProgramError::MalformedArtifact),
        Option::Some(pn) => match num_model(pn) {
            Some(p) => if p > 0 {
                Ok(p)
            } else {
                Err(ProgramError::MalformedArtifact)
            },
            None => Err(ProgramError::MalformedArtifact),
        },
    }
}

pub open spec fn data_model(fs: Seq<(String, Node)>, prime: nat) -> Result<
    Seq<WordModel>,
    ProgramError,
> {
    match field_of(fs, "data"@) {
        Option::Some(Node::List(l)) => match list_model(l@, word_model_fn(prime)) {
            Some(ws) => Ok(ws),
            None => Err(ProgramError::MalformedArtifact),
        },
        _ => Err(ProgramError::MalformedArtifact),
    }
}

pub open spec fn identifiers_model(fs: Seq<(String, Node)>, prime: nat) -> Result<
    Seq<(Seq<char>, IdentModel)>,
    ProgramError,
> {
    match field_of(fs, "identifiers"@) {
        Option::Some(Node::Object(ifs)) => match idents_model(ifs@, prime) {
            Some(ids) => Ok(ids),
            None => Err(ProgramError::InvalidIdentifier),
        },
        _ => Err(ProgramError::MalformedArtifact),
    }
}

pub open spec fn hints_model(fs: Seq<(String, Node)>) -> Result<
    Seq<(nat, Seq<HintModel>)>,
    ProgramError,
> {
    match field_of(fs, "hints"@) {
        Option::None => Ok(Seq::empty()),
        Option::Some(Node::Object(hfs)) => match hints_map_model(hfs@) {
            Some(hs) => Ok(hs),
            None => Err(ProgramError::InvalidHint),
        },
        Option::Some(_) => Err(ProgramError::InvalidHint),
    }
}

pub open spec fn references_model(fs: Seq<(String, Node)>) -> Result<Seq<RefModel>, ProgramError> {
    match field_of(fs, "reference_manager"@) {
        Option::None => Err(ProgramError::MalformedArtifact),
        Option::Some(Node::Object(rfs)) => match field_of(rfs@, "references"@) {
            Option::Some(Node::List(l)) => match list_model(l@, ref_model_fn()) {
                Some(rs) => Ok(rs),
                None => Err(ProgramError::InvalidReference),
            },
            _ => Err(ProgramError::InvalidReference),
        },
        Option::Some(_) => Err(ProgramError::MalformedArtifact),
    }
}

pub open spec fn builtins_model(fs: Seq<(String, Node)>) -> Result<Seq<Seq<char>>, ProgramError> {
    match field_of(fs, "builtins"@) {
        Option::None => Ok(Seq::empty()),
        Option::Some(Node::List(l)) => match texts_model(l@) {
            Some(bs) => Ok(bs),
            None => Err(ProgramError::MalformedArtifact),
        },
        Option::Some(_) => Err(ProgramError::MalformedArtifact),
    }
}

/// What loading an artifact means: the program a valid artifact denotes, or
/// the error of the first violated step (prime, data, identifiers, hints,
/// reference manager, builtins, in that order).
pub open spec fn load_model(a: Node, entrypoint: Seq<char>) -> Result<ProgramModel, ProgramError> {
    match top_fields(a) {
        Option::None => Err(ProgramError::MalformedArtifact),
        Option::Some(fs) => match prime_model(fs) {
            Err(e) => Err(e),
            Ok(prime) => match data_model(fs, prime) {
                Err(e) => Err(e),
                Ok(data) => match identifiers_model(fs, prime) {
                    Err(e) => Err(e),
                    Ok(ids) => match hints_model(fs) {
                        Err(e) => Err(e),
                        Ok(hints) => match references_model(fs) {
                            Err(e) => Err(e),
                            Ok(refs) => match builtins_model(fs) {
                                Err(e) => Err(e),
                                Ok(builtins) => Ok(
                                    ProgramModel {
                                        builtins,
                                        prime,
                                        data,
                                        main: main_model(ids, entrypoint),
                                        hints,
                                        reference_manager: refs,
                                        identifiers: ids,
                                    },
                                ),
                            },
                        },
                    },
                },
            },
        },
    }
}

/// Is the word a field element inside the field?
pub open spec fn word_in_field(w: WordModel, prime: nat) -> bool {
    match w {
        WordModel::Int(x) => x < prime,
        WordModel::Address(_, _) => true,
    }
}

/// A symbol-table entry: optional program counter, optional type tag,
/// optional constant value.  Absent fields are absent, never sentinel values.
#[derive(Debug, PartialEq, Eq)]
pub struct Identifier {
    pub pc: Option<usize>,
    pub type_: Option<String>,
    pub value: Option<BigNat>,
}

impl View for Identifier {
    type V = IdentModel;

    open spec fn view(&self) -> IdentModel {
        IdentModel {
            pc: match self.pc {
                Some(u) => Some(u as nat),
                None => None,
            },
            type_tag: match self.type_ {
                Some(s) => Some(s@),
                None => None,
            },
            value: match self.value {
                Some(b) => Some(b.value()),
                None => None,
            },
        }
    }
}

pub open spec fn ident_wf(id: Identifier) -> bool {
    match id.value {
        Some(b) => b.wf(),
        None => true,
    }
}

/// Hint metadata attached to one program counter: opaque code for the
/// external hint engine, the reference names it may use, and opaque
/// flow-tracking metadata.
#[derive(Debug, PartialEq, Eq)]
pub struct HintParams {
    pub code: String,
    pub accessible_scopes: Vec<String>,
    pub flow_tracking_data: Vec<String>,
}

impl View for HintParams {
    type V = HintModel;

    open spec fn view(&self) -> HintModel {
        HintModel {
            code: self.code@,
            accessible_scopes: self.accessible_scopes.deep_view(),
            flow_tracking_data: self.flow_tracking_data.deep_view(),
        }
    }
}

/// A named, typed value reference with its defining expression.
#[derive(Debug, PartialEq, Eq)]
pub struct Reference {
    pub name: String,
    pub value_type: String,
    pub definition: String,
}

impl View for Reference {
    type V = RefModel;

    open spec fn view(&self) -> RefModel {
        RefModel { name: self.name@, value_type: self.value_type@, definition: self.definition@ }
    }
}

/// The ordered list of references; later entries shadow earlier ones of the
/// same name.
#[derive(Debug, PartialEq, Eq)]
pub struct ReferenceManager {
    pub references: Vec<Reference>,
}

pub open spec fn refs_view(v: Seq<Reference>) -> Seq<RefModel> {
    v.map_values(|r: Reference| r@)
}

impl View for ReferenceManager {
    type V = Seq<RefModel>;

    open spec fn view(&self) -> Seq<RefModel> {
        refs_view(self.references@)
    }
}

/// The entry a lookup by name returns: the **last** entry with that name.
pub open spec fn ref_lookup(rs: Seq<RefModel>, name: Seq<char>) -> Option<RefModel>
    decreases rs.len(),
{
    if rs.len() == 0 {
        None
    } else if rs.last().name == name {
        Some(rs.last())
    } else {
        ref_lookup(rs.drop_last(), name)
    }
}

/// Reference shadowing: when two entries share a name, a lookup by that name
/// returns the later of the two, or an entry later still with the same name.
pub proof fn lemma_reference_shadowing(rs: Seq<RefModel>, i: int, j: int)
    requires
        0 <= i < j < rs.len(),
        rs[i].name == rs[j].name,
    ensures
        exists|k: int|
            j <= k < rs.len() && (#[trigger] rs[k]).name == rs[i].name && ref_lookup(
                rs,
                rs[i].name,
            ) == Some(rs[k]),
    decreases rs.len(),
{
    let name = rs[i].name;
    if rs.last().name == name {
        assert(rs[rs.len() - 1].name == name && ref_lookup(rs, name) == Some(rs[rs.len() - 1]));
    } else {
        assert(j < rs.len() - 1);
        assert(rs.drop_last()[i] == rs[i] && rs.drop_last()[j] == rs[j]);
        lemma_reference_shadowing(rs.drop_last(), i, j);
        let k = choose|k: int|
            j <= k < rs.drop_last().len() && (#[trigger] rs.drop_last()[k]).name == name
                && ref_lookup(rs.drop_last(), name) == Some(rs.drop_last()[k]);
        assert(rs[k].name == name && ref_lookup(rs, name) == Some(rs[k]));
    }
}

impl ReferenceManager {
    /// Look a reference up by name; later entries shadow earlier ones.
    pub fn get(&self, name: &String) -> (r: Option<&Reference>)
        ensures
            match r {
                Some(rf) => ref_lookup(self@, name@) == Some(rf@),
                None => ref_lookup(self@, name@) is None,
            },
    {
        let mut i: usize = self.references.len();
        proof {
            assert(self@.take(self.references@.len() as int) =~= self@);
        }
        while i > 0
            invariant
                i <= self.references@.len(),
                ref_lookup(self@, name@) == ref_lookup(self@.take(i as int), name@),
            decreases i,
        {
            i -= 1;
            proof {
                assert(self@.take(i as int + 1).last() == self@[i as int]);
                assert(self@[i as int] == self.references@[i as int]@);
            }
            let hit = self.references[i].name == *name;
            if hit {
                return Some(&self.references[i]);
            }
            proof {
                assert(self@.take(i as int + 1).drop_last() =~= self@.take(i as int));
            }
        }
        proof {
            assert(self@.take(0) =~= Seq::<RefModel>::empty());
        }
        None
    }
}

pub open spec fn idents_view(v: Seq<(String, Identifier)>) -> Seq<(Seq<char>, IdentModel)> {
    v.map_values(|e: (String, Identifier)| (e.0@, e.1@))
}

/// First entry of the identifier table with the given name.
pub fn find_identifier<'a>(ids: &'a Vec<(String, Identifier)>, name: &String) -> (r: Option<
    &'a Identifier,
>)
    ensures
        match r {
            Some(id) => ident_lookup(idents_view(ids@), name@) == Some(id@),
            None => ident_lookup(idents_view(ids@), name@) is None,
        },
{
    let ghost vw = idents_view(ids@);
    let mut i: usize = 0;
    proof {
        assert(vw.skip(0) =~= vw);
    }
    while i < ids.len()
        invariant
            i <= ids@.len(),
            vw == idents_view(ids@),
            ident_lookup(vw, name@) == ident_lookup(vw.skip(i as int), name@),
        decreases ids@.len() - i,
    {
        proof {
            assert(vw.skip(i as int)[0] == vw[i as int]);
            assert(vw[i as int] == (ids@[i as int].0@, ids@[i as int].1@));
        }
        let hit = ids[i].0 == *name;
        if hit {
            return Some(&ids[i].1);
        }
        proof {
            assert(vw.skip(i as int).skip(1) =~= vw.skip(i as int + 1));
        }
        i += 1;
    }
    proof {
        assert(vw.skip(ids@.len() as int) =~= Seq::<(Seq<char>, IdentModel)>::empty());
    }
    None
}

fn parse_num(n: &Node) -> (r: Option<BigNat>)
    ensures
        match r {
            Some(b) => b.wf() && num_model(*n) == Some(b.value()),
            None => num_model(*n) is None,
        },
{
    match n {
        Node::Uint(u) => Some(BigNat::from_u64(*u as u64)),
        Node::Text(s) => BigNat::from_decimal(s.as_str()),
        _ => None,
    }
}

fn parse_word(n: &Node, prime: &BigNat) -> (r: Option<MaybeRelocatable>)
    requires
        prime.wf(),
        prime.value() > 0,
    ensures
        match r {
            Some(w) => w.wf() && word_model(*n, prime.value()) == Some(w@) && word_in_field(
                w@,
                prime.value(),
            ),
            None => word_model(*n, prime.value()) is None,
        },
{
    match n {
        Node::Object(fs) => {
            let seg_key = String::from_str("segment_index");
            let off_key = String::from_str("offset");
            let seg = get_field(fs, &seg_key);
            let off = get_field(fs, &off_key);
            match (seg, off) {
                (Some(Node::Uint(s)), Some(Node::Uint(o))) => Some(
                    MaybeRelocatable::RelocatableValue(
                        Relocatable { segment_index: *s, offset: *o },
                    ),
                ),
                _ => None,
            }
        },
        _ => match parse_num(n) {
            Some(b) => Some(MaybeRelocatable::Int(b.reduce_mod(prime))),
            None => None,
        },
    }
}

fn parse_text_list(l: &Vec<Node>) -> (r: Option<Vec<String>>)
    ensures
        match r {
            Some(v) => texts_model(l@) == Some(v.deep_view()),
            None => texts_model(l@) is None,
        },
{
    let mut out: Vec<String> = Vec::new();
    let mut i: usize = 0;
    proof {
        assert(l@.take(0) =~= Seq::<Node>::empty());
        assert(out.deep_view() =~= Seq::<Seq<char>>::empty());
    }
    while i < l.len()
        invariant
            i <= l@.len(),
            list_model(l@.take(i as int), text_model_fn()) == Some(out.deep_view()),
        decreases l@.len() - i,
    {
        proof {
            assert(l@.take(i as int + 1).drop_last() =~= l@.take(i as int));
            assert(l@.take(i as int + 1).last() == l@[i as int]);
        }
        match &l[i] {
            Node::Text(s) => {
                let ghost prev = out.deep_view();
                out.push(s.clone());
                proof {
                    assert(out.deep_view() =~= prev.push(s@));
                }
            },
            _ => {
                proof {
                    assert(list_model(l@.take(i as int + 1), text_model_fn()) is None);
                    lemma_list_model_none_extend(l@, text_model_fn(), i as int + 1);
                }
                return None;
            },
        }
        i += 1;
    }
    proof {
        assert(l@.take(l@.len() as int) =~= l@);
    }
    Some(out)
}

fn parse_hint(n: &Node) -> (r: Option<HintParams>)
    ensures
        match r {
            Some(h) => hint_model(*n) == Some(h@),
            None => hint_model(*n) is None,
        },
{
    let fs = match n {
        Node::Object(fs) => fs,
        _ => {
            return None;
        },
    };
    let code_key = String::from_str("code");
    let code = match get_field(fs, &code_key) {
        Some(Node::Text(c)) => c.clone(),
        _ => {
            return None;
        },
    };
    let scopes_key = String::from_str("accessible_scopes");
    let scopes: Vec<String> = match get_field(fs, &scopes_key) {
        None => {
            let v: Vec<String> = Vec::new();
            proof {
                assert(v.deep_view() =~= Seq::<Seq<char>>::empty());
            }
            v
        },
        Some(Node::List(l)) => match parse_text_list(l) {
            Some(v) => v,
            None => {
                return None;
            },
        },
        Some(_) => {
            return None;
        },
    };
    let flow_key = String::from_str("flow_tracking_data");
    let flow: Vec<String> = match get_field(fs, &flow_key) {
        None => {
            let v: Vec<String> = Vec::new();
            proof {
                assert(v.deep_view() =~= Seq::<Seq<char>>::empty());
            }
            v
        },
        Some(Node::List(l)) => match parse_text_list(l) {
            Some(v) => v,
            None => {
                return None;
            },
        },
        Some(_) => {
            return None;
        },
    };
    Some(HintParams { code, accessible_scopes: scopes, flow_tracking_data: flow })
}

fn parse_ident(n: &Node, prime: &BigNat) -> (r: Option<Identifier>)
    requires
        prime.wf(),
        prime.value() > 0,
    ensures
        match r {
            Some(id) => ident_wf(id) && ident_model(*n, prime.value()) == Some(id@),
            None => ident_model(*n, prime.value()) is None,
        },
{
    let fs = match n {
        Node::Object(fs) => fs,
        _ => {
            return None;
        },
    };
    let pc_key = String::from_str("pc");
    let pc: Option<usize> = match get_field(fs, &pc_key) {
        None => None,
        Some(Node::Uint(u)) => Some(*u),
        Some(_) => {
            return None;
        },
    };
    let type_key = String::from_str("type");
    let ty: Option<String> = match get_field(fs, &type_key) {
        None => None,
        Some(Node::Text(s)) => Some(s.clone()),
        Some(_) => {
            return None;
        },
    };
    let value_key = String::from_str("value");
    let value: Option<BigNat> = match get_field(fs, &value_key) {
        None => None,
        Some(vn) => match parse_num(vn) {
            Some(b) => Some(b.reduce_mod(prime)),
            None => {
                return None;
            },
        },
    };
    Some(Identifier { pc, type_: ty, value })
}

fn parse_reference(n: &Node) -> (r: Option<Reference>)
    ensures
        match r {
            Some(rf) => ref_model(*n) == Some(rf@),
            None => ref_model(*n) is None,
        },
{
    let fs = match n {
        Node::Object(fs) => fs,
        _ => {
            return None;
        },
    };
    let name_key = String::from_str("name");
    let name = match get_field(fs, &name_key) {
        Some(Node::Text(s)) => s.clone(),
        _ => {
            return None;
        },
    };
    let vt_key = String::from_str("value_type");
    let value_type = match get_field(fs, &vt_key) {
        Some(Node::Text(s)) => s.clone(),
        _ => {
            return None;
        },
    };
    let def_key = String::from_str("definition");
    let definition = match get_field(fs, &def_key) {
        Some(Node::Text(s)) => s.clone(),
        _ => {
            return None;
        },
    };
    Some(Reference { name, value_type, definition })
}

pub open spec fn words_view(v: Seq<MaybeRelocatable>) -> Seq<WordModel> {
    v.map_values(|w: MaybeRelocatable| w@)
}

pub open spec fn hint_list_view(v: Seq<HintParams>) -> Seq<HintModel> {
    v.map_values(|h: HintParams| h@)
}

pub open spec fn hints_view(v: Seq<(usize, Vec<HintParams>)>) -> Seq<(nat, Seq<HintModel>)> {
    v.map_values(|e: (usize, Vec<HintParams>)| (e.0 as nat, hint_list_view(e.1@)))
}

fn parse_data(l: &Vec<Node>, prime: &BigNat) -> (r: Option<Vec<MaybeRelocatable>>)
    requires
        prime.wf(),
        prime.value() > 0,
    ensures
        match r {
            Some(v) => {
                &&& list_model(l@, word_model_fn(prime.value())) == Some(words_view(v@))
                &&& forall|k: int| 0 <= k < v@.len() ==> (#[trigger] v@[k]).wf()
                &&& forall|k: int|
                    0 <= k < v@.len() ==> word_in_field(#[trigger] words_view(v@)[k], prime.value())
            },
            None => list_model(l@, word_model_fn(prime.value())) is None,
        },
{
    let ghost f = word_model_fn(prime.value());
    let mut out: Vec<MaybeRelocatable> = Vec::new();
    let mut i: usize = 0;
    proof {
        assert(l@.take(0) =~= Seq::<Node>::empty());
        assert(words_view(out@) =~= Seq::<WordModel>::empty());
    }
    while i < l.len()
        invariant
            prime.wf(),
            prime.value() > 0,
            f == word_model_fn(prime.value()),
            i <= l@.len(),
            list_model(l@.take(i as int), f) == Some(words_view(out@)),
            forall|k: int| 0 <= k < out@.len() ==> (#[trigger] out@[k]).wf(),
            forall|k: int|
                0 <= k < out@.len() ==> word_in_field(
                    #[trigger] words_view(out@)[k],
                    prime.value(),
                ),
        decreases l@.len() - i,
    {
        proof {
            assert(l@.take(i as int + 1).drop_last() =~= l@.take(i as int));
            assert(l@.take(i as int + 1).last() == l@[i as int]);
        }
        match parse_word(&l[i], prime) {
            Some(w) => {
                let ghost prev = words_view(out@);
                out.push(w);
                proof {
                    assert(words_view(out@) =~= prev.push(w@));
                }
            },
            None => {
                proof {
                    assert(list_model(l@.take(i as int + 1), f) is None);
                    lemma_list_model_none_extend(l@, f, i as int + 1);
                }
                return None;
            },
        }
        i += 1;
    }
    proof {
        assert(l@.take(l@.len() as int) =~= l@);
    }
    Some(out)
}

fn parse_hint_list(l: &Vec<Node>) -> (r: Option<Vec<HintParams>>)
    ensures
        match r {
            Some(v) => list_model(l@, hint_model_fn()) == Some(hint_list_view(v@)),
            None => list_model(l@, hint_model_fn()) is None,
        },
{
    let mut out: Vec<HintParams> = Vec::new();
    let mut i: usize = 0;
    proof {
        assert(l@.take(0) =~= Seq::<Node>::empty());
        assert(hint_list_view(out@) =~= Seq::<HintModel>::empty());
    }
    while i < l.len()
        invariant
            i <= l@.len(),
            list_model(l@.take(i as int), hint_model_fn()) == Some(hint_list_view(out@)),
        decreases l@.len() - i,
    {
        proof {
            assert(l@.take(i as int + 1).drop_last() =~= l@.take(i as int));
            assert(l@.take(i as int + 1).last() == l@[i as int]);
        }
        match parse_hint(&l[i]) {
            Some(h) => {
                let ghost prev = hint_list_view(out@);
                out.push(h);
                proof {
                    assert(hint_list_view(out@) =~= prev.push(h@));
                }
            },
            None => {
                proof {
                    assert(list_model(l@.take(i as int + 1), hint_model_fn()) is None);
                    lemma_list_model_none_extend(l@, hint_model_fn(), i as int + 1);
                }
                return None;
            },
        }
        i += 1;
    }
    proof {
        assert(l@.take(l@.len() as int) =~= l@);
    }
    Some(out)
}

fn parse_ref_list(l: &Vec<Node>) -> (r: Option<Vec<Reference>>)
    ensures
        match r {
            Some(v) => list_model(l@, ref_model_fn()) == Some(refs_view(v@)),
            None => list_model(l@, ref_model_fn()) is None,
        },
{
    let mut out: Vec<Reference> = Vec::new();
    let mut i: usize = 0;
    proof {
        assert(l@.take(0) =~= Seq::<Node>::empty());
        assert(refs_view(out@) =~= Seq::<RefModel>::empty());
    }
    while i < l.len()
        invariant
            i <= l@.len(),
            list_model(l@.take(i as int), ref_model_fn()) == Some(refs_view(out@)),
        decreases l@.len() - i,
    {
        proof {
            assert(l@.take(i as int + 1).drop_last() =~= l@.take(i as int));
            assert(l@.take(i as int + 1).last() == l@[i as int]);
        }
        match parse_reference(&l[i]) {
            Some(rf) => {
                let ghost prev = refs_view(out@);
                out.push(rf);
                proof {
                    assert(refs_view(out@) =~= prev.push(rf@));
                }
            },
            None => {
                proof {
                    assert(list_model(l@.take(i as int + 1), ref_model_fn()) is None);
                    lemma_list_model_none_extend(l@, ref_model_fn(), i as int + 1);
                }
                return None;
            },
        }
        i += 1;
    }
    proof {
        assert(l@.take(l@.len() as int) =~= l@);
    }
    Some(out)
}

fn parse_identifiers(ifs: &Vec<(String, Node)>, prime: &BigNat) -> (r: Option<
    Vec<(String, Identifier)>,
>)
    requires
        prime.wf(),
        prime.value() > 0,
    ensures
        match r {
            Some(v) => {
                &&& idents_model(ifs@, prime.value()) == Some(idents_view(v@))
                &&& forall|k: int| 0 <= k < v@.len() ==> ident_wf(#[trigger] v@[k].1)
            },
            None => idents_model(ifs@, prime.value()) is None,
        },
{
    let mut out: Vec<(String, Identifier)> = Vec::new();
    let mut i: usize = 0;
    proof {
        assert(ifs@.take(0) =~= Seq::<(String, Node)>::empty());
        assert(idents_view(out@) =~= Seq::<(Seq<char>, IdentModel)>::empty());
    }
    while i < ifs.len()
        invariant
            prime.wf(),
            prime.value() > 0,
            i <= ifs@.len(),
            idents_model(ifs@.take(i as int), prime.value()) == Some(idents_view(out@)),
            forall|k: int| 0 <= k < out@.len() ==> ident_wf(#[trigger] out@[k].1),
        decreases ifs@.len() - i,
    {
        proof {
            assert(ifs@.take(i as int + 1).drop_last() =~= ifs@.take(i as int));
            assert(ifs@.take(i as int + 1).last() == ifs@[i as int]);
        }
        let name = &ifs[i].0;
        let dup = find_identifier(&out, name);
        proof {
            lemma_ident_lookup_key_in(idents_view(out@), name@);
        }
        if dup.is_some() {
            proof {
                assert(idents_model(ifs@.take(i as int + 1), prime.value()) is None);
                lemma_idents_model_none_extend(ifs@, prime.value(), i as int + 1);
            }
            return None;
        }
        match parse_ident(&ifs[i].1, prime) {
            Some(id) => {
                let ghost prev = idents_view(out@);
                let ghost idm = id@;
                out.push((name.clone(), id));
                proof {
                    assert(idents_view(out@) =~= prev.push((ifs@[i as int].0@, idm)));
                }
            },
            None => {
                proof {
                    assert(idents_model(ifs@.take(i as int + 1), prime.value()) is None);
                    lemma_idents_model_none_extend(ifs@, prime.value(), i as int + 1);
                }
                return None;
            },
        }
        i += 1;
    }
    proof {
        assert(ifs@.take(ifs@.len() as int) =~= ifs@);
    }
    Some(out)
}

fn contains_pc(v: &Vec<(usize, Vec<HintParams>)>, pc: usize) -> (b: bool)
    ensures
        b == key_in_hints(hints_view(v@), pc as nat),
{
    let mut i: usize = 0;
    while i < v.len()
        invariant
            i <= v@.len(),
            forall|k: int| 0 <= k < i ==> (#[trigger] v@[k]).0 != pc,
        decreases v@.len() - i,
    {
        if v[i].0 == pc {
            proof {
                assert(hints_view(v@)[i as int].0 == pc as nat);
            }
            return true;
        }
        i += 1;
    }
    proof {
        if key_in_hints(hints_view(v@), pc as nat) {
            let k = choose|k: int|
                0 <= k < hints_view(v@).len() && #[trigger] hints_view(v@)[k].0 == pc as nat;
            assert(v@[k].0 == pc);
        }
    }
    false
}

fn parse_hints_map(hfs: &Vec<(String, Node)>) -> (r: Option<Vec<(usize, Vec<HintParams>)>>)
    ensures
        match r {
            Some(v) => hints_map_model(hfs@) == Some(hints_view(v@)),
            None => hints_map_model(hfs@) is None,
        },
{
    let mut out: Vec<(usize, Vec<HintParams>)> = Vec::new();
    let mut i: usize = 0;
    proof {
        assert(hfs@.take(0) =~= Seq::<(String, Node)>::empty());
        assert(hints_view(out@) =~= Seq::<(nat, Seq<HintModel>)>::empty());
    }
    while i < hfs.len()
        invariant
            i <= hfs@.len(),
            hints_map_model(hfs@.take(i as int)) == Some(hints_view(out@)),
        decreases hfs@.len() - i,
    {
        proof {
            assert(hfs@.take(i as int + 1).drop_last() =~= hfs@.take(i as int));
            assert(hfs@.take(i as int + 1).last() == hfs@[i as int]);
        }
        let pc = match parse_dec_usize(hfs[i].0.as_str()) {
            Some(pc) => pc,
            None => {
                proof {
                    assert(hint_pc_model(hfs@[i as int].0@) is None);
                    assert(hints_map_model(hfs@.take(i as int + 1)) is None);
                    lemma_hints_map_model_none_extend(hfs@, i as int + 1);
                }
                return None;
            },
        };
        proof {
            assert(hint_pc_model(hfs@[i as int].0@) == Some(pc as nat));
        }
        if contains_pc(&out, pc) {
            proof {
                assert(hints_map_model(hfs@.take(i as int + 1)) is None);
                lemma_hints_map_model_none_extend(hfs@, i as int + 1);
            }
            return None;
        }
        let hints = match &hfs[i].1 {
            Node::List(l) => match parse_hint_list(l) {
                Some(v) => v,
                None => {
                    proof {
                        assert(hints_map_model(hfs@.take(i as int + 1)) is None);
                        lemma_hints_map_model_none_extend(hfs@, i as int + 1);
                    }
                    return None;
                },
            },
            _ => {
                proof {
                    assert(hints_map_model(hfs@.take(i as int + 1)) is None);
                    lemma_hints_map_model_none_extend(hfs@, i as int + 1);
                }
                return None;
            },
        };
        let ghost prev = hints_view(out@);
        let ghost hl = hint_list_view(hints@);
        out.push((pc, hints));
        proof {
            assert(hints_view(out@) =~= prev.push((pc as nat, hl)));
        }
        i += 1;
    }
    proof {
        assert(hfs@.take(hfs@.len() as int) =~= hfs@);
    }
    Some(out)
}

/// The hints attached to a program counter; an absent key means no hints.
pub open spec fn hint_lookup(hs: Seq<(nat, Seq<HintModel>)>, pc: nat) -> Option<Seq<HintModel>>
    decreases hs.len(),
{
    if hs.len() == 0 {
        None
    } else if hs[0].0 == pc {
        Some(hs[0].1)
    } else {
        hint_lookup(hs.skip(1), pc)
    }
}

/// The immutable result of a successful load.  Constructed once by
/// `Program::new`; it has no mutators.
#[derive(Debug, PartialEq, Eq)]
pub struct Program {
    /// Names of the builtin runners the program requires, in artifact order.
    pub builtins: Vec<String>,
    /// The field modulus the program's data was encoded against.
    pub prime: BigNat,
    /// The flattened instruction and constant stream, indexed by program
    /// counter.
    pub data: Vec<MaybeRelocatable>,
    /// The resolved entrypoint, absent when the entrypoint symbol is absent
    /// or has no program counter.
    pub main: Option<usize>,
    /// Hints grouped by program counter, per-pc lists in artifact order.
    pub hints: Vec<(usize, Vec<HintParams>)>,
    /// The ordered reference list.
    pub reference_manager: ReferenceManager,
    /// The symbol table, keyed by fully-qualified dotted name, unique.
    pub identifiers: Vec<(String, Identifier)>,
}

impl View for Program {
    type V = ProgramModel;

    open spec fn view(&self) -> ProgramModel {
        ProgramModel {
            builtins: self.builtins.deep_view(),
            prime: self.prime.value(),
            data: words_view(self.data@),
            main: match self.main {
                Some(u) => Some(u as nat),
                None => None,
            },
            hints: hints_view(self.hints@),
            reference_manager: self.reference_manager@,
            identifiers: idents_view(self.identifiers@),
        }
    }
}

impl Program {
    pub open spec fn wf(&self) -> bool {
        &&& self.prime.wf()
        &&& self.prime.value() > 0
        &&& forall|i: int| 0 <= i < self.data@.len() ==> (#[trigger] self.data@[i]).wf()
        &&& forall|i: int|
            0 <= i < self.identifiers@.len() ==> ident_wf(#[trigger] self.identifiers@[i].1)
    }

    /// Load an artifact and resolve `entrypoint`: the returned program is
    /// exactly the one `load_model` denotes, or the load fails with exactly
    /// the error `load_model` denotes.  Every field element of a loaded
    /// program lies inside the field, and `main` is the resolved entrypoint.
    pub fn new(artifact: &Node, entrypoint: &str) -> (r: Result<Program, ProgramError>)
        ensures
            match r {
                Ok(p) => {
                    &&& p.wf()
                    &&& load_model(*artifact, entrypoint@) == Ok::<ProgramModel, ProgramError>(p@)
                    &&& forall|i: int|
                        0 <= i < p@.data.len() ==> word_in_field(#[trigger] p@.data[i], p@.prime)
                    &&& p@.main == main_model(p@.identifiers, entrypoint@)
                },
                Err(e) => load_model(*artifact, entrypoint@) == Err::<ProgramModel, ProgramError>(
                    e,
                ),
            },
    {
        let fields = match artifact {
            Node::Object(fs) => fs,
            _ => {
                return Err(ProgramError::MalformedArtifact);
            },
        };
        proof {
            assert(top_fields(*artifact) == Some(fields@));
        }
        let prime_key = String::from_str("prime");
        let prime = match get_field(fields, &prime_key) {
            Some(pn) => match parse_num(pn) {
                Some(b) => b,
                None => {
                    return Err(ProgramError::MalformedArtifact);
                },
            },
            None => {
                return Err(ProgramError::MalformedArtifact);
            },
        };
        if prime.is_zero() {
            return Err(ProgramError::MalformedArtifact);
        }
        proof {
            assert(prime_model(fields@) == Ok::<nat, ProgramError>(prime.value()));
        }
        let data_key = String::from_str("data");
        let data = match get_field(fields, &data_key) {
            Some(Node::List(l)) => match parse_data(l, &prime) {
                Some(v) => v,
                None => {
                    return Err(ProgramError::MalformedArtifact);
                },
            },
            _ => {
                return Err(ProgramError::MalformedArtifact);
            },
        };
        proof {
            assert(data_model(fields@, prime.value()) == Ok::<Seq<WordModel>, ProgramError>(
                words_view(data@),
            ));
        }
        let idents_key = String::from_str("identifiers");
        let identifiers = match get_field(fields, &idents_key) {
            Some(Node::Object(ifs)) => match parse_identifiers(ifs, &prime) {
                Some(v) => v,
                None => {
                    return Err(ProgramError::InvalidIdentifier);
                },
            },
            _ => {
                return Err(ProgramError::MalformedArtifact);
            },
        };
        proof {
            assert(identifiers_model(fields@, prime.value()) == Ok::<
                Seq<(Seq<char>, IdentModel)>,
                ProgramError,
            >(idents_view(identifiers@)));
        }
        let hints_key = String::from_str("hints");
        let hints: Vec<(usize, Vec<HintParams>)> = match get_field(fields, &hints_key) {
            None => {
                let v: Vec<(usize, Vec<HintParams>)> = Vec::new();
                proof {
                    assert(hints_view(v@) =~= Seq::<(nat, Seq<HintModel>)>::empty());
                }
                v
            },
            Some(Node::Object(hfs)) => match parse_hints_map(hfs) {
                Some(v) => v,
                None => {
                    return Err(ProgramError::InvalidHint);
                },
            },
            Some(_) => {
                return Err(ProgramError::InvalidHint);
            },
        };
        proof {
            assert(hints_model(fields@) == Ok::<Seq<(nat, Seq<HintModel>)>, ProgramError>(
                hints_view(hints@),
            ));
        }
        let rm_key = String::from_str("reference_manager");
        let references = match get_field(fields, &rm_key) {
            Some(Node::Object(rfs)) => {
                let refs_key = String::from_str("references");
                match get_field(rfs, &refs_key) {
                    Some(Node::List(l)) => match parse_ref_list(l) {
                        Some(v) => v,
                        None => {
                            return Err(ProgramError::InvalidReference);
                        },
                    },
                    _ => {
                        return Err(ProgramError::InvalidReference);
                    },
                }
            },
            Some(_) => {
                return Err(ProgramError::MalformedArtifact);
            },
            None => {
                return Err(ProgramError::MalformedArtifact);
            },
        };
        proof {
            assert(references_model(fields@) == Ok::<Seq<RefModel>, ProgramError>(
                refs_view(references@),
            ));
        }
        let builtins_key = String::from_str("builtins");
        let builtins: Vec<String> = match get_field(fields, &builtins_key) {
            None => {
                let v: Vec<String> = Vec::new();
                proof {
                    assert(v.deep_view() =~= Seq::<Seq<char>>::empty());
                }
                v
            },
            Some(Node::List(l)) => match parse_text_list(l) {
                Some(v) => v,
                None => {
                    return Err(ProgramError::MalformedArtifact);
                },
            },
            Some(_) => {
                return Err(ProgramError::MalformedArtifact);
            },
        };
        proof {
            assert(builtins_model(fields@) == Ok::<Seq<Seq<char>>, ProgramError>(
                builtins.deep_view(),
            ));
        }
        let mut main_name = String::from_str("__main__.");
        main_name.append(entrypoint);
        let main: Option<usize> = match find_identifier(&identifiers, &main_name) {
            Some(id) => id.pc,
            None => None,
        };
        let p = Program {
            builtins,
            prime,
            data,
            main,
            hints,
            reference_manager: ReferenceManager { references },
            identifiers,
        };
        proof {
            assert(p@.main == main_model(p@.identifiers, entrypoint@));
            assert(load_model(*artifact, entrypoint@) == Ok::<ProgramModel, ProgramError>(p@));
        }
        Ok(p)
    }

    /// Load, additionally requiring the artifact's declared prime to equal
    /// the expected field modulus.
    pub fn new_with_prime(artifact: &Node, entrypoint: &str, expected_prime: &BigNat) -> (r:
        Result<Program, ProgramError>)
        requires
            expected_prime.wf(),
        ensures
            match load_model(*artifact, entrypoint@) {
                Ok(m) => if m.prime == expected_prime.value() {
                    r matches Ok(p) && p.wf() && p@ == m
                } else {
                    r == Err::<Program, ProgramError>(ProgramError::PrimeMismatch)
                },
                Err(e) => r == Err::<Program, ProgramError>(e),
            },
    {
        let p = match Self::new(artifact, entrypoint) {
            Ok(p) => p,
            Err(e) => {
                return Err(e);
            },
        };
        if p.prime.eq_val(expected_prime) {
            Ok(p)
        } else {
            Err(ProgramError::PrimeMismatch)
        }
    }

    /// The identifier registered under `name`, if any.
    pub fn get_identifier(&self, name: &String) -> (r: Option<&Identifier>)
        ensures
            match r {
                Some(id) => ident_lookup(self@.identifiers, name@) == Some(id@),
                None => ident_lookup(self@.identifiers, name@) is None,
            },
    {
        find_identifier(&self.identifiers, name)
    }

    /// The hints attached to `pc`, in artifact order; an absent key means no
    /// hints at that pc.
    pub fn hints_at(&self, pc: usize) -> (r: Option<&Vec<HintParams>>)
        ensures
            match r {
                Some(hs) => hint_lookup(self@.hints, pc as nat) == Some(hint_list_view(hs@)),
                None => hint_lookup(self@.hints, pc as nat) is None,
            },
    {
        let ghost vw = hints_view(self.hints@);
        let mut i: usize = 0;
        proof {
            assert(vw.skip(0) =~= vw);
        }
        while i < self.hints.len()
            invariant
                i <= self.hints@.len(),
                vw == hints_view(self.hints@),
                hint_lookup(vw, pc as nat) == hint_lookup(vw.skip(i as int), pc as nat),
            decreases self.hints@.len() - i,
        {
            proof {
                assert(vw.skip(i as int)[0] == vw[i as int]);
                assert(vw[i as int] == (
                    self.hints@[i as int].0 as nat,
                    hint_list_view(self.hints@[i as int].1@),
                ));
            }
            if self.hints[i].0 == pc {
                return Some(&self.hints[i].1);
            }
            proof {
                assert(vw.skip(i as int).skip(1) =~= vw.skip(i as int + 1));
            }
            i += 1;
        }
        proof {
            assert(vw.skip(self.hints@.len() as int) =~= Seq::<(nat, Seq<HintModel>)>::empty());
        }
        None
    }
}

/// Round trip: encode a well-formed, in-field machine word back into an
/// artifact node; decoding the encoding yields the word unchanged.
pub fn encode_word(w: &MaybeRelocatable, prime: &BigNat) -> (r: Node)
    requires
        w.wf(),
        prime.wf(),
        prime.value() > 0,
        word_in_field(w@, prime.value()),
    ensures
        word_model(r, prime.value()) == Some(w@),
{
    match w {
        MaybeRelocatable::Int(b) => {
            let s = b.to_decimal_string();
            proof {
                vstd::arithmetic::div_mod::lemma_small_mod(b.value(), prime.value());
            }
            Node::Text(s)
        },
        MaybeRelocatable::RelocatableValue(rl) => {
            let seg_key = String::from_str("segment_index");
            let off_key = String::from_str("offset");
            let mut fs: Vec<(String, Node)> = Vec::new();
            fs.push((seg_key, Node::Uint(rl.segment_index)));
            fs.push((off_key, Node::Uint(rl.offset)));
            proof {
                reveal_strlit("segment_index");
                reveal_strlit("offset");
                assert(fs@[0].0@ == "segment_index"@);
                assert(fs@[1].0@ == "offset"@);
                assert("segment_index"@.len() == 13 && "offset"@.len() == 6);
                assert(field_of(fs@, "segment_index"@) == Some(fs@[0].1));
                assert(fs@.skip(1)[0] == fs@[1] && fs@.skip(1).len() == 1);
                assert(field_of(fs@.skip(1), "offset"@) == Some(fs@[1].1));
                assert(field_of(fs@, "offset"@) == Some(fs@[1].1));
            }
            Node::Object(fs)
        },
    }
}

/// Loading is deterministic: one artifact and one entrypoint denote exactly
/// one program.
pub proof fn lemma_load_deterministic(
    a: Node,
    entrypoint: Seq<char>,
    m1: ProgramModel,
    m2: ProgramModel,
)
    requires
        load_model(a, entrypoint) == Ok::<ProgramModel, ProgramError>(m1),
        load_model(a, entrypoint) == Ok::<ProgramModel, ProgramError>(m2),
    ensures
        m1 == m2,
{
}

/// Order preservation: the builtins of a loaded program are exactly the
/// texts of the artifact's `builtins` list, in artifact order.
pub proof fn lemma_builtins_order(
    a: Node,
    entrypoint: Seq<char>,
    m: ProgramModel,
    fs: Seq<(String, Node)>,
    l: Vec<Node>,
)
    requires
        load_model(a, entrypoint) == Ok::<ProgramModel, ProgramError>(m),
        top_fields(a) == Some(fs),
        field_of(fs, "builtins"@) == Some(Node::List(l)),
    ensures
        m.builtins.len() == l@.len(),
        forall|i: int| 0 <= i < l@.len() ==> text_model(#[trigger] l@[i]) == Some(m.builtins[i]),
{
    assert(builtins_model(fs) == Ok::<Seq<Seq<char>>, ProgramError>(m.builtins));
    lemma_list_model_index(l@, text_model_fn(), m.builtins);
}

pub proof fn lemma_hints_map_model_index(fs: Seq<(String, Node)>, s: Seq<(nat, Seq<HintModel>)>, i: int)
    requires
        hints_map_model(fs) == Some(s),
        0 <= i < fs.len(),
    ensures
        s.len() == fs.len(),
        hint_pc_model(fs[i].0@) == Some(s[i].0),
        fs[i].1 is List,
        list_model(fs[i].1->List_0@, hint_model_fn()) == Some(s[i].1),
    decreases fs.len(),
{
    if i == fs.len() - 1 {
        let rest = hints_map_model(fs.drop_last()).unwrap();
        lemma_hints_map_model_len(fs.drop_last(), rest);
    } else {
        let rest = hints_map_model(fs.drop_last()).unwrap();
        assert(fs.drop_last()[i] == fs[i]);
        lemma_hints_map_model_index(fs.drop_last(), rest, i);
    }
}

pub proof fn lemma_hints_map_model_len(fs: Seq<(String, Node)>, s: Seq<(nat, Seq<HintModel>)>)
    requires
        hints_map_model(fs) == Some(s),
    ensures
        s.len() == fs.len(),
    decreases fs.len(),
{
    if fs.len() > 0 {
        let rest = hints_map_model(fs.drop_last()).unwrap();
        lemma_hints_map_model_len(fs.drop_last(), rest);
    }
}

/// Order preservation: each entry of a loaded program's hints table carries
/// the key and the ordered hint list of the artifact entry at the same
/// position.
pub proof fn lemma_hints_order(
    a: Node,
    entrypoint: Seq<char>,
    m: ProgramModel,
    fs: Seq<(String, Node)>,
    hv: Vec<(String, Node)>,
    i: int,
)
    requires
        load_model(a, entrypoint) == Ok::<ProgramModel, ProgramError>(m),
        top_fields(a) == Some(fs),
        field_of(fs, "hints"@) == Some(Node::Object(hv)),
        0 <= i < hv@.len(),
    ensures
        m.hints.len() == hv@.len(),
        hint_pc_model(hv@[i].0@) == Some(m.hints[i].0),
        hv@[i].1 is List,
        list_model(hv@[i].1->List_0@, hint_model_fn()) == Some(m.hints[i].1),
{
    assert(hints_model(fs) == Ok::<Seq<(nat, Seq<HintModel>)>, ProgramError>(m.hints));
    lemma_hints_map_model_index(hv@, m.hints, i);
}

pub proof fn lemma_idents_model_len(fs: Seq<(String, Node)>, prime: nat, s: Seq<(Seq<char>, IdentModel)>)
    requires
        idents_model(fs, prime) == Some(s),
    ensures
        s.len() == fs.len(),
    decreases fs.len(),
{
    if fs.len() > 0 {
        let rest = idents_model(fs.drop_last(), prime).unwrap();
        lemma_idents_model_len(fs.drop_last(), prime, rest);
    }
}

pub proof fn lemma_idents_model_index(
    fs: Seq<(String, Node)>,
    prime: nat,
    s: Seq<(Seq<char>, IdentModel)>,
    i: int,
)
    requires
        idents_model(fs, prime) == Some(s),
        0 <= i < fs.len(),
    ensures
        s.len() == fs.len(),
        s[i].0 == fs[i].0@,
        ident_model(fs[i].1, prime) == Some(s[i].1),
    decreases fs.len(),
{
    if i == fs.len() - 1 {
        let rest = idents_model(fs.drop_last(), prime).unwrap();
        lemma_idents_model_len(fs.drop_last(), prime, rest);
    } else {
        let rest = idents_model(fs.drop_last(), prime).unwrap();
        assert(fs.drop_last()[i] == fs[i]);
        lemma_idents_model_index(fs.drop_last(), prime, rest, i);
    }
}

proof fn lemma_word_model_in_field(n: Node, prime: nat, w: WordModel)
    requires
        prime > 0,
        word_model(n, prime) == Some(w),
    ensures
        word_in_field(w, prime),
{
    match n {
        Node::Object(_) => {
        },
        _ => {
            match num_model(n) {
                Some(x) => {
                    assert(x % prime < prime) by (nonlinear_arith)
                        requires
                            prime > 0,
                    ;
                },
                None => {
                },
            }
        },
    }
}

proof fn lemma_ident_model_in_field(n: Node, prime: nat, id: IdentModel)
    requires
        prime > 0,
        ident_model(n, prime) == Some(id),
    ensures
        match id.value {
            Some(v) => v < prime,
            None => true,
        },
{
    match n {
        Node::Object(fs) => {
            match field_of(fs@, "value"@) {
                Some(v) => {
                    match num_model(v) {
                        Some(x) => {
                            assert(x % prime < prime) by (nonlinear_arith)
                                requires
                                    prime > 0,
                            ;
                        },
                        None => {
                        },
                    }
                },
                None => {
                },
            }
        },
        _ => {
        },
    }
}

/// Field reduction: every field element a loaded program holds — each data
/// word and each identifier constant value — lies in `[0, prime)`.
pub proof fn lemma_field_reduction(a: Node, entrypoint: Seq<char>, m: ProgramModel)
    requires
        load_model(a, entrypoint) == Ok::<ProgramModel, ProgramError>(m),
    ensures
        m.prime > 0,
        forall|i: int| 0 <= i < m.data.len() ==> word_in_field(#[trigger] m.data[i], m.prime),
        forall|i: int|
            0 <= i < m.identifiers.len() ==> match (#[trigger] m.identifiers[i].1).value {
                Some(v) => v < m.prime,
                None => true,
            },
{
    let fs = top_fields(a).unwrap();
    assert(prime_model(fs) == Ok::<nat, ProgramError>(m.prime));
    assert(data_model(fs, m.prime) == Ok::<Seq<WordModel>, ProgramError>(m.data));
    assert(identifiers_model(fs, m.prime) == Ok::<Seq<(Seq<char>, IdentModel)>, ProgramError>(
        m.identifiers,
    ));
    match field_of(fs, "data"@) {
        Some(Node::List(l)) => {
            lemma_list_model_index(l@, word_model_fn(m.prime), m.data);
            assert forall|i: int| 0 <= i < m.data.len() implies word_in_field(
                #[trigger] m.data[i],
                m.prime,
            ) by {
                lemma_word_model_in_field(l@[i], m.prime, m.data[i]);
            }
        },
        _ => {
            assert(false);
        },
    }
    match field_of(fs, "identifiers"@) {
        Some(Node::Object(ifs)) => {
            lemma_idents_model_len(ifs@, m.prime, m.identifiers);
            assert forall|i: int| 0 <= i < m.identifiers.len() implies match (
            #[trigger] m.identifiers[i].1).value {
                Some(v) => v < m.prime,
                None => true,
            } by {
                lemma_idents_model_index(ifs@, m.prime, m.identifiers, i);
                lemma_ident_model_in_field(ifs@[i].1, m.prime, m.identifiers[i].1);
            }
        },
        _ => {
            assert(false);
        },
    }
}

} // verus!
