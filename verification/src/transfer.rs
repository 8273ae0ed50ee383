//! The transfer form of a resolved context: the target format accepts
//! only string or integer map keys, so handle keys become plain integers,
//! qualified-name keys become their canonical dotted renderings, and the
//! undefined set becomes a list of integers. Reconstruction re-tokenizes
//! each dotted string into single-token, fixed-case names and reseeds the
//! allocator one past the largest handle seen.

use vstd::prelude::*;

use crate::context::Context;
use crate::context::ContextModel;
use crate::context::TypeInfo;
use crate::context::TypeInfoModel;
use crate::idgen::TypeIdGenerator;
use crate::names::Name;
use crate::names::NameCase;
use crate::names::NameModel;
use crate::names::QualifiedName;
use crate::names::joined;
use crate::names::render_name;
use crate::names::render_qualified;
use crate::names::rendered_all;
use crate::context::resolution_of;
use crate::context::resolution_of_id;
use crate::nodes::TypeDef;
use crate::nodes::TypeDefModel;
use crate::nodes::TypeId;
use crate::nodes::clone_type_def;

verus! {

/// One resolved type in transfer form: the canonical dotted name and the
/// fully id-based declaration.
#[derive(Debug)]
pub struct TransferTypeInfo {
    pub name: String,
    pub def: TypeDef,
}

/// Mathematical model of a transfer entry.
#[verifier::ext_equal]
pub ghost struct TransferTypeInfoModel {
    pub name: Seq<char>,
    pub def: TypeDefModel,
}

impl View for TransferTypeInfo {
    type V = TransferTypeInfoModel;

    open spec fn view(&self) -> TransferTypeInfoModel {
        TransferTypeInfoModel { name: self.name@, def: self.def@ }
    }
}

/// A whole context in transfer form: integer-keyed definitions,
/// dotted-string-keyed handles, and the undefined handles as integers.
#[derive(Debug)]
pub struct SerializableContext {
    pub defined_types: Vec<(usize, TransferTypeInfo)>,
    pub named_types: Vec<(String, usize)>,
    pub undefined_ids: Vec<usize>,
}

/// Mathematical model of a context's transfer form.
#[verifier::ext_equal]
pub ghost struct TransferModel {
    pub defined: Seq<(nat, TransferTypeInfoModel)>,
    pub named: Seq<(Seq<char>, nat)>,
    pub undefined: Seq<nat>,
}

pub open spec fn transfer_defined_entries(s: Seq<(usize, TransferTypeInfo)>) -> Seq<
    (nat, TransferTypeInfoModel),
> {
    s.map_values(|p: (usize, TransferTypeInfo)| (p.0 as nat, p.1@))
}

pub open spec fn transfer_named_entries(s: Seq<(String, usize)>) -> Seq<(Seq<char>, nat)> {
    s.map_values(|p: (String, usize)| (p.0@, p.1 as nat))
}

pub open spec fn transfer_ids(s: Seq<usize>) -> Seq<nat> {
    s.map_values(|x: usize| x as nat)
}

impl View for SerializableContext {
    type V = TransferModel;

    open spec fn view(&self) -> TransferModel {
        TransferModel {
            defined: transfer_defined_entries(self.defined_types@),
            named: transfer_named_entries(self.named_types@),
            undefined: transfer_ids(self.undefined_ids@),
        }
    }
}

/// A defined entry taken to transfer form: the canonical name rendered.
pub open spec fn defined_to_transfer(s: Seq<(nat, TypeInfoModel)>) -> Seq<
    (nat, TransferTypeInfoModel),
> {
    s.map_values(
        |p: (nat, TypeInfoModel)|
            (p.0, TransferTypeInfoModel { name: render_qualified(p.1.name), def: p.1.def }),
    )
}

/// A name entry taken to transfer form: the key rendered.
pub open spec fn named_to_transfer(s: Seq<(Seq<NameModel>, nat)>) -> Seq<(Seq<char>, nat)> {
    s.map_values(|p: (Seq<NameModel>, nat)| (render_qualified(p.0), p.1))
}

/// What serializing a context yields.
pub open spec fn to_transfer_model(c: ContextModel) -> TransferModel {
    TransferModel {
        defined: defined_to_transfer(c.defined),
        named: named_to_transfer(c.named),
        undefined: c.undefined,
    }
}

/// A single-token, fixed-case name over one text segment.
pub open spec fn segment_name(t: Seq<char>) -> NameModel {
    NameModel { tokens: seq![t], case: NameCase::Fixed }
}

/// The first `.` at or after position `i`; negative when there is none.
pub open spec fn dot_index_from(s: Seq<char>, i: int) -> int
    decreases s.len() - i,
{
    if i < 0 || i >= s.len() {
        -1
    } else if s[i] == '.' {
        i
    } else {
        dot_index_from(s, i + 1)
    }
}

/// The qualified name read from the text's tail starting at `start`:
/// segments between dots, each a single-token fixed-case name.
pub open spec fn parse_from(s: Seq<char>, start: int) -> Seq<NameModel>
    decreases s.len() - start,
{
    if start < 0 || start > s.len() {
        Seq::empty()
    } else {
        let d = dot_index_from(s, start);
        if d < start || d >= s.len() {
            seq![segment_name(s.subrange(start, s.len() as int))]
        } else {
            seq![segment_name(s.subrange(start, d))] + parse_from(s, d + 1)
        }
    }
}

/// The qualified name a dotted rendering reconstructs to.
pub open spec fn parse_dotted(s: Seq<char>) -> Seq<NameModel> {
    parse_from(s, 0)
}

/// A defined entry reconstructed from transfer form.
pub open spec fn defined_from_transfer(s: Seq<(nat, TransferTypeInfoModel)>) -> Seq<
    (nat, TypeInfoModel),
> {
    s.map_values(
        |p: (nat, TransferTypeInfoModel)|
            (p.0, TypeInfoModel { name: parse_dotted(p.1.name), def: p.1.def }),
    )
}

/// A name entry reconstructed from transfer form.
pub open spec fn named_from_transfer(s: Seq<(Seq<char>, nat)>) -> Seq<(Seq<NameModel>, nat)> {
    s.map_values(|p: (Seq<char>, nat)| (parse_dotted(p.0), p.1))
}

/// One past the largest of `init - 1` and the handles in the definition
/// entries.
pub open spec fn next_after_defined(s: Seq<(nat, TransferTypeInfoModel)>, init: nat) -> nat
    decreases s,
{
    if s.len() == 0 {
        init
    } else {
        let m = next_after_defined(s.drop_last(), init);
        if s.last().0 + 1 > m {
            s.last().0 + 1
        } else {
            m
        }
    }
}

/// One past the largest of `init - 1` and the handles in the name entries.
pub open spec fn next_after_named(s: Seq<(Seq<char>, nat)>, init: nat) -> nat
    decreases s,
{
    if s.len() == 0 {
        init
    } else {
        let m = next_after_named(s.drop_last(), init);
        if s.last().1 + 1 > m {
            s.last().1 + 1
        } else {
            m
        }
    }
}

/// One past the largest of `init - 1` and the listed handles.
pub open spec fn next_after_ids(s: Seq<nat>, init: nat) -> nat
    decreases s,
{
    if s.len() == 0 {
        init
    } else {
        let m = next_after_ids(s.drop_last(), init);
        if s.last() + 1 > m {
            s.last() + 1
        } else {
            m
        }
    }
}

/// The allocator state a reconstruction reseeds to: one past the largest
/// handle anywhere in the transfer form.
pub open spec fn next_of_transfer(t: TransferModel) -> nat {
    next_after_ids(t.undefined, next_after_named(t.named, next_after_defined(t.defined, 0)))
}

/// What deserializing a transfer form yields.
pub open spec fn from_transfer_model(t: TransferModel) -> ContextModel {
    ContextModel {
        defined: defined_from_transfer(t.defined),
        named: named_from_transfer(t.named),
        undefined: t.undefined,
        next_id: next_of_transfer(t),
    }
}

/// Whether every handle in the transfer form leaves room for the
/// reseeding increment.
pub open spec fn transfer_ids_small(t: TransferModel) -> bool {
    &&& (forall|j: int| 0 <= j < t.defined.len() ==> (#[trigger] t.defined[j]).0 < usize::MAX)
    &&& (forall|j: int| 0 <= j < t.named.len() ==> (#[trigger] t.named[j]).1 < usize::MAX)
    &&& (forall|j: int| 0 <= j < t.undefined.len() ==> #[trigger] t.undefined[j] < usize::MAX)
}

impl SerializableContext {
    /// A context taken to its transfer form: integer keys for handles,
    /// canonical dotted renderings for qualified names.
    pub fn from(ctx: &Context) -> (r: SerializableContext)
        ensures
            r@ == to_transfer_model(ctx@),
    {
        let mut defined_types: Vec<(usize, TransferTypeInfo)> = Vec::new();
        let mut i: usize = 0;
        while i < ctx.defined_types.len()
            invariant
                i <= ctx.defined_types.len(),
                transfer_defined_entries(defined_types@) == defined_to_transfer(
                    ctx@.defined.take(i as int),
                ),
            decreases ctx.defined_types.len() - i,
        {
            let entry = &ctx.defined_types[i];
            let info = TransferTypeInfo {
                name: entry.1.name.to_string(),
                def: clone_type_def(&entry.1.def),
            };
            let ghost pre = transfer_defined_entries(defined_types@);
            defined_types.push((entry.0.id(), info));
            proof {
                assert(ctx@.defined[i as int] == (ctx.defined_types@[i as int].0@,
                ctx.defined_types@[i as int].1@));
                assert(transfer_defined_entries(defined_types@) =~= pre.push(
                    (ctx@.defined[i as int].0,
                    TransferTypeInfoModel {
                        name: render_qualified(ctx@.defined[i as int].1.name),
                        def: ctx@.defined[i as int].1.def,
                    }),
                ));
                assert(transfer_defined_entries(defined_types@) =~= defined_to_transfer(
                    ctx@.defined.take(i as int + 1),
                ));
            }
            i = i + 1;
        }
        let mut named_types: Vec<(String, usize)> = Vec::new();
        let mut k: usize = 0;
        while k < ctx.named_types.len()
            invariant
                k <= ctx.named_types.len(),
                transfer_named_entries(named_types@) == named_to_transfer(
                    ctx@.named.take(k as int),
                ),
            decreases ctx.named_types.len() - k,
        {
            let entry = &ctx.named_types[k];
            let ghost pre = transfer_named_entries(named_types@);
            named_types.push((entry.0.to_string(), entry.1.id()));
            proof {
                assert(ctx@.named[k as int] == (ctx.named_types@[k as int].0@,
                ctx.named_types@[k as int].1@));
                assert(transfer_named_entries(named_types@) =~= pre.push(
                    (render_qualified(ctx@.named[k as int].0), ctx@.named[k as int].1),
                ));
                assert(transfer_named_entries(named_types@) =~= named_to_transfer(
                    ctx@.named.take(k as int + 1),
                ));
            }
            k = k + 1;
        }
        let mut undefined_ids: Vec<usize> = Vec::new();
        let mut u: usize = 0;
        while u < ctx.undefined_ids.len()
            invariant
                u <= ctx.undefined_ids.len(),
                transfer_ids(undefined_ids@) == ctx@.undefined.take(u as int),
            decreases ctx.undefined_ids.len() - u,
        {
            let ghost pre = transfer_ids(undefined_ids@);
            undefined_ids.push(ctx.undefined_ids[u].id());
            proof {
                assert(ctx@.undefined[u as int] == ctx.undefined_ids@[u as int]@);
                assert(transfer_ids(undefined_ids@) =~= pre.push(ctx@.undefined[u as int]));
                assert(transfer_ids(undefined_ids@) =~= ctx@.undefined.take(u as int + 1));
            }
            u = u + 1;
        }
        let r = SerializableContext { defined_types, named_types, undefined_ids };
        proof {
            assert(ctx@.defined.take(ctx.defined_types.len() as int) =~= ctx@.defined);
            assert(ctx@.named.take(ctx.named_types.len() as int) =~= ctx@.named);
            assert(ctx@.undefined.take(ctx.undefined_ids.len() as int) =~= ctx@.undefined);
            assert(r@ =~= to_transfer_model(ctx@));
        }
        r
    }
}

/// A qualified name read back from its dotted rendering: segments between
/// dots, each a single-token fixed-case name.
fn parse_qualified(s: &str) -> (r: QualifiedName)
    ensures
        r@ == parse_dotted(s@),
{
    let len = s.unicode_len();
    let mut done: Vec<Name> = Vec::new();
    let mut start: usize = 0;
    let mut i: usize = 0;
    while i < len
        invariant
            start <= i <= len,
            len == s@.len(),
            parse_dotted(s@) == done.deep_view() + parse_from(s@, start as int),
            dot_index_from(s@, start as int) == dot_index_from(s@, i as int),
        decreases len - i,
    {
        let c = s.get_char(i);
        if c == '.' {
            let segment = s.substring_char(start, i).to_owned();
            let mut tokens: Vec<String> = Vec::new();
            tokens.push(segment);
            let name = Name { tokens, case: NameCase::Fixed };
            proof {
                assert(name@.tokens =~= seq![s@.subrange(start as int, i as int)]);
                assert(name@ =~= segment_name(s@.subrange(start as int, i as int)));
            }
            let ghost pre = done.deep_view();
            done.push(name);
            proof {
                assert(done.deep_view().len() == pre.len() + 1);
                assert(forall|j: int| 0 <= j < pre.len() ==> #[trigger] done.deep_view()[j]
                    == pre[j]);
                assert(dot_index_from(s@, start as int) == i);
                assert(parse_from(s@, start as int) == seq![
                    segment_name(s@.subrange(start as int, i as int)),
                ] + parse_from(s@, i as int + 1));
                assert(done.deep_view() + parse_from(s@, i as int + 1) =~= pre + parse_from(
                    s@,
                    start as int,
                ));
            }
            start = i + 1;
        }
        i = i + 1;
    }
    let segment = s.substring_char(start, len).to_owned();
    let mut tokens: Vec<String> = Vec::new();
    tokens.push(segment);
    let name = Name { tokens, case: NameCase::Fixed };
    proof {
        assert(name@.tokens =~= seq![s@.subrange(start as int, len as int)]);
        assert(name@ =~= segment_name(s@.subrange(start as int, len as int)));
    }
    let ghost pre = done.deep_view();
    done.push(name);
    proof {
        assert(done.deep_view().len() == pre.len() + 1);
        assert(forall|j: int| 0 <= j < pre.len() ==> #[trigger] done.deep_view()[j] == pre[j]);
        assert(dot_index_from(s@, start as int) == -1);
        assert(parse_from(s@, start as int) == seq![
            segment_name(s@.subrange(start as int, len as int)),
        ]);
        assert(done.deep_view() =~= pre + parse_from(s@, start as int));
        assert(done.deep_view() =~= parse_dotted(s@));
    }
    QualifiedName { names: done }
}

impl Context {
    /// A context rebuilt from its transfer form: each dotted name is
    /// re-tokenized into single-token fixed-case names, and the allocator
    /// is reseeded one past the largest handle seen anywhere.
    pub fn from_serializable(ser: &SerializableContext) -> (r: Context)
        requires
            transfer_ids_small(ser@),
        ensures
            r@ == from_transfer_model(ser@),
    {
        let mut next: usize = 0;
        let mut defined_types: Vec<(TypeId, TypeInfo)> = Vec::new();
        let mut i: usize = 0;
        while i < ser.defined_types.len()
            invariant
                i <= ser.defined_types.len(),
                transfer_ids_small(ser@),
                crate::context::defined_entries_model(defined_types@) == defined_from_transfer(
                    ser@.defined.take(i as int),
                ),
                next as nat == next_after_defined(ser@.defined.take(i as int), 0),
            decreases ser.defined_types.len() - i,
        {
            let entry = &ser.defined_types[i];
            proof {
                assert(ser@.defined[i as int] == (ser.defined_types@[i as int].0 as nat,
                ser.defined_types@[i as int].1@));
                assert(ser@.defined.take(i as int + 1).drop_last() =~= ser@.defined.take(i as int));
                assert(ser@.defined.take(i as int + 1).last() == ser@.defined[i as int]);
            }
            if entry.0 + 1 > next {
                next = entry.0 + 1;
            }
            let info = TypeInfo {
                name: parse_qualified(entry.1.name.as_str()),
                def: clone_type_def(&entry.1.def),
            };
            let ghost pre = crate::context::defined_entries_model(defined_types@);
            defined_types.push((TypeId::new(entry.0), info));
            proof {
                assert(crate::context::defined_entries_model(defined_types@) =~= pre.push(
                    (ser@.defined[i as int].0,
                    TypeInfoModel {
                        name: parse_dotted(ser@.defined[i as int].1.name),
                        def: ser@.defined[i as int].1.def,
                    }),
                ));
                assert(crate::context::defined_entries_model(defined_types@)
                    =~= defined_from_transfer(ser@.defined.take(i as int + 1)));
            }
            i = i + 1;
        }
        let mut named_types: Vec<(QualifiedName, TypeId)> = Vec::new();
        let mut k: usize = 0;
        let ghost base_n = next as nat;
        while k < ser.named_types.len()
            invariant
                k <= ser.named_types.len(),
                transfer_ids_small(ser@),
                crate::context::named_entries_model(named_types@) == named_from_transfer(
                    ser@.named.take(k as int),
                ),
                next as nat == next_after_named(ser@.named.take(k as int), base_n),
            decreases ser.named_types.len() - k,
        {
            let entry = &ser.named_types[k];
            proof {
                assert(ser@.named[k as int] == (ser.named_types@[k as int].0@,
                ser.named_types@[k as int].1 as nat));
                assert(ser@.named.take(k as int + 1).drop_last() =~= ser@.named.take(k as int));
                assert(ser@.named.take(k as int + 1).last() == ser@.named[k as int]);
            }
            if entry.1 + 1 > next {
                next = entry.1 + 1;
            }
            let ghost pre = crate::context::named_entries_model(named_types@);
            named_types.push((parse_qualified(entry.0.as_str()), TypeId::new(entry.1)));
            proof {
                assert(crate::context::named_entries_model(named_types@) =~= pre.push(
                    (parse_dotted(ser@.named[k as int].0), ser@.named[k as int].1),
                ));
                assert(crate::context::named_entries_model(named_types@) =~= named_from_transfer(
                    ser@.named.take(k as int + 1),
                ));
            }
            k = k + 1;
        }
        let mut undefined_ids: Vec<TypeId> = Vec::new();
        let mut u: usize = 0;
        let ghost base_u = next as nat;
        while u < ser.undefined_ids.len()
            invariant
                u <= ser.undefined_ids.len(),
                transfer_ids_small(ser@),
                crate::context::ids_model(undefined_ids@) == ser@.undefined.take(u as int),
                next as nat == next_after_ids(ser@.undefined.take(u as int), base_u),
            decreases ser.undefined_ids.len() - u,
        {
            proof {
                assert(ser@.undefined[u as int] == ser.undefined_ids@[u as int] as nat);
                assert(ser@.undefined.take(u as int + 1).drop_last() =~= ser@.undefined.take(
                    u as int,
                ));
                assert(ser@.undefined.take(u as int + 1).last() == ser@.undefined[u as int]);
            }
            let id = ser.undefined_ids[u];
            if id + 1 > next {
                next = id + 1;
            }
            let ghost pre = crate::context::ids_model(undefined_ids@);
            undefined_ids.push(TypeId::new(id));
            proof {
                assert(crate::context::ids_model(undefined_ids@) =~= pre.push(
                    ser@.undefined[u as int],
                ));
                assert(crate::context::ids_model(undefined_ids@) =~= ser@.undefined.take(
                    u as int + 1,
                ));
            }
            u = u + 1;
        }
        let mut type_id_generator = TypeIdGenerator::new();
        type_id_generator.set_next(next);
        let r = Context { defined_types, named_types, undefined_ids, type_id_generator };
        proof {
            assert(ser@.defined.take(ser.defined_types.len() as int) =~= ser@.defined);
            assert(ser@.named.take(ser.named_types.len() as int) =~= ser@.named);
            assert(ser@.undefined.take(ser.undefined_ids.len() as int) =~= ser@.undefined);
            assert(r@ =~= from_transfer_model(ser@));
        }
        r
    }
}

/// Each part taken to a single-token fixed-case name.
pub open spec fn segments_of(parts: Seq<Seq<char>>) -> Seq<NameModel> {
    parts.map_values(|t: Seq<char>| segment_name(t))
}

/// A name that survives the transfer normalization: one nonempty token,
/// free of dots, rendered fixed.
pub open spec fn name_round_trips(n: NameModel) -> bool {
    &&& n.case == NameCase::Fixed
    &&& n.tokens.len() == 1
    &&& n.tokens[0].len() > 0
    &&& forall|i: int| 0 <= i < n.tokens[0].len() ==> n.tokens[0][i] != '.'
}

/// A qualified name that survives the transfer normalization.
pub open spec fn qn_round_trips(q: Seq<NameModel>) -> bool {
    &&& q.len() > 0
    &&& forall|i: int| 0 <= i < q.len() ==> name_round_trips(#[trigger] q[i])
}

/// A context whose keys and canonical names all survive the transfer
/// normalization.
pub open spec fn context_round_trips(c: ContextModel) -> bool {
    &&& (forall|j: int| 0 <= j < c.named.len() ==> qn_round_trips((#[trigger] c.named[j]).0))
    &&& (forall|j: int| 0 <= j < c.defined.len() ==> qn_round_trips((#[trigger] c.defined[j]).1.name))
}

/// Where the first dot sits, spelled out.
proof fn lemma_dot_index_props(s: Seq<char>, i: int)
    requires
        0 <= i,
    ensures
        ({
            let r = dot_index_from(s, i);
            &&& (r == -1 || i <= r < s.len())
            &&& (r == -1 <==> (forall|j: int| i <= j < s.len() ==> s[j] != '.'))
            &&& (r >= 0 ==> s[r] == '.' && (forall|j: int| i <= j < r ==> s[j] != '.'))
        }),
    decreases s.len() - i,
{
    if i < s.len() && s[i] != '.' {
        lemma_dot_index_props(s, i + 1);
    }
}

/// The first dot, seen from a suffix.
proof fn lemma_dot_index_shift(s: Seq<char>, k: int, i: int)
    requires
        0 <= k <= i,
        k <= s.len(),
    ensures
        dot_index_from(s, i) == (if dot_index_from(s.skip(k), i - k) < 0 {
            -1
        } else {
            dot_index_from(s.skip(k), i - k) + k
        }),
    decreases s.len() - i,
{
    if i < s.len() {
        assert(s.skip(k)[i - k] == s[i]);
        if s[i] != '.' {
            lemma_dot_index_shift(s, k, i + 1);
        }
    }
}

/// Reading a qualified name from position `k` is reading it from the
/// suffix that starts there.
proof fn lemma_parse_shift(s: Seq<char>, k: int, start: int)
    requires
        0 <= k <= start <= s.len(),
    ensures
        parse_from(s, start) == parse_from(s.skip(k), start - k),
    decreases s.len() - start,
{
    lemma_dot_index_shift(s, k, start);
    lemma_dot_index_props(s, start);
    let d = dot_index_from(s, start);
    let t = s.skip(k);
    if d < start || d >= s.len() {
        assert(s.subrange(start, s.len() as int) =~= t.subrange(start - k, t.len() as int));
    } else {
        assert(dot_index_from(t, start - k) == d - k);
        assert(s.subrange(start, d) =~= t.subrange(start - k, d - k));
        lemma_parse_shift(s, k, d + 1);
    }
}

/// For two or more parts, the join is first part, separator, rest.
proof fn lemma_joined_first(parts: Seq<Seq<char>>, sep: Seq<char>)
    requires
        parts.len() >= 2,
    ensures
        joined(parts, sep) == parts[0] + sep + joined(parts.drop_first(), sep),
    decreases parts.len(),
{
    if parts.len() == 2 {
        assert(parts.drop_last()[0] == parts[0]);
        assert(parts.drop_last() =~= seq![parts[0]]);
        assert(parts.drop_first() =~= seq![parts[1]]);
        assert(joined(parts, sep) =~= parts[0] + sep + joined(parts.drop_first(), sep));
    } else {
        lemma_joined_first(parts.drop_last(), sep);
        assert(parts.drop_last()[0] == parts[0]);
        assert(parts.drop_last().drop_first() =~= parts.drop_first().drop_last());
        assert(parts.drop_first().last() == parts.last());
        assert(joined(parts, sep) == joined(parts.drop_last(), sep) + sep + parts.last());
        assert(joined(parts.drop_first(), sep) == joined(parts.drop_first().drop_last(), sep) + sep
            + parts.last());
        assert(joined(parts, sep) =~= parts[0] + sep + joined(parts.drop_first(), sep));
    }
}

/// Splitting on dots undoes joining with dots, when every part is
/// nonempty and free of dots.
proof fn lemma_parse_of_joined(parts: Seq<Seq<char>>)
    requires
        parts.len() > 0,
        forall|i: int| 0 <= i < parts.len() ==> (#[trigger] parts[i]).len() > 0,
        forall|i: int, j: int| 0 <= i < parts.len() && 0 <= j < parts[i].len() ==> #[trigger]
        parts[i][j] != '.',
    ensures
        parse_dotted(joined(parts, seq!['.'])) == segments_of(parts),
    decreases parts.len(),
{
    let s = joined(parts, seq!['.']);
    if parts.len() == 1 {
        assert(s == parts[0]);
        lemma_dot_index_props(s, 0);
        assert(forall|j: int| 0 <= j < s.len() ==> s[j] != '.');
        assert(dot_index_from(s, 0) == -1);
        assert(s.subrange(0, s.len() as int) =~= s);
        assert(parse_dotted(s) =~= seq![segment_name(parts[0])]);
        assert(parse_dotted(s) =~= segments_of(parts));
    } else {
        lemma_joined_first(parts, seq!['.']);
        let head = parts[0];
        let rest = joined(parts.drop_first(), seq!['.']);
        assert(s == head + seq!['.'] + rest);
        let head_len = head.len() as int;
        assert(s[head_len] == '.');
        assert(forall|j: int| 0 <= j < head_len ==> s[j] == head[j]);
        lemma_dot_index_props(s, 0);
        let d = dot_index_from(s, 0);
        assert(d >= 0);
        assert(d == head_len) by {
            if d < head_len {
                assert(s[d] == head[d]);
            }
            if d > head_len {
                assert(s[head_len] == '.');
            }
        }
        assert(s.subrange(0, head_len) =~= head);
        assert(parse_dotted(s) == seq![segment_name(head)] + parse_from(s, head_len + 1));
        lemma_parse_shift(s, head_len + 1, head_len + 1);
        assert(s.skip(head_len + 1) =~= rest);
        assert(parse_from(s, head_len + 1) == parse_dotted(rest));
        assert(forall|i: int| 0 <= i < parts.drop_first().len() ==> (#[trigger] parts.drop_first()[
            i]).len() > 0);
        assert forall|i: int, j: int|
            0 <= i < parts.drop_first().len() && 0 <= j < parts.drop_first()[i].len() implies
            #[trigger] parts.drop_first()[i][j] != '.' by {
            assert(parts.drop_first()[i] == parts[i + 1]);
        }
        lemma_parse_of_joined(parts.drop_first());
        assert(parse_dotted(s) =~= seq![segment_name(head)] + segments_of(parts.drop_first()));
        assert(parse_dotted(s) =~= segments_of(parts));
    }
}

/// The canonical dotted rendering reconstructs the qualified name exactly,
/// for names that survive the normalization.
pub proof fn lemma_parse_render_round_trip(q: Seq<NameModel>)
    requires
        qn_round_trips(q),
    ensures
        parse_dotted(render_qualified(q)) == q,
{
    let parts = rendered_all(q);
    assert(parts.len() == q.len());
    assert forall|i: int| 0 <= i < q.len() implies #[trigger] parts[i] == q[i].tokens[0] by {
        assert(name_round_trips(q[i]));
        assert(render_name(q[i]) == joined(q[i].tokens, Seq::empty()));
        assert(q[i].tokens.len() == 1);
    }
    assert(forall|i: int| 0 <= i < parts.len() ==> (#[trigger] parts[i]).len() > 0);
    assert forall|i: int, j: int|
        0 <= i < parts.len() && 0 <= j < parts[i].len() implies #[trigger] parts[i][j] != '.' by {
        assert(name_round_trips(q[i]));
        assert(parts[i] == q[i].tokens[0]);
    }
    lemma_parse_of_joined(parts);
    assert forall|i: int| 0 <= i < q.len() implies segments_of(parts)[i] == q[i] by {
        assert(segments_of(parts)[i] == segment_name(q[i].tokens[0]));
        assert(segment_name(q[i].tokens[0]).tokens =~= q[i].tokens);
        assert(segment_name(q[i].tokens[0]) =~= q[i]);
    }
    assert(parse_dotted(render_qualified(q)) =~= q);
}

/// The reseeded allocator clears `init` and every handle it has seen.
proof fn lemma_next_after_defined_bound(s: Seq<(nat, TransferTypeInfoModel)>, init: nat)
    ensures
        init <= next_after_defined(s, init),
        forall|j: int| 0 <= j < s.len() ==> (#[trigger] s[j]).0 < next_after_defined(s, init),
    decreases s,
{
    if s.len() > 0 {
        lemma_next_after_defined_bound(s.drop_last(), init);
        assert forall|j: int| 0 <= j < s.len() implies (#[trigger] s[j]).0 < next_after_defined(
            s,
            init,
        ) by {
            if j < s.len() - 1 {
                assert(s.drop_last()[j] == s[j]);
            }
        }
    }
}

proof fn lemma_next_after_named_bound(s: Seq<(Seq<char>, nat)>, init: nat)
    ensures
        init <= next_after_named(s, init),
        forall|j: int| 0 <= j < s.len() ==> (#[trigger] s[j]).1 < next_after_named(s, init),
    decreases s,
{
    if s.len() > 0 {
        lemma_next_after_named_bound(s.drop_last(), init);
        assert forall|j: int| 0 <= j < s.len() implies (#[trigger] s[j]).1 < next_after_named(
            s,
            init,
        ) by {
            if j < s.len() - 1 {
                assert(s.drop_last()[j] == s[j]);
            }
        }
    }
}

proof fn lemma_next_after_ids_bound(s: Seq<nat>, init: nat)
    ensures
        init <= next_after_ids(s, init),
        forall|j: int| 0 <= j < s.len() ==> #[trigger] s[j] < next_after_ids(s, init),
    decreases s,
{
    if s.len() > 0 {
        lemma_next_after_ids_bound(s.drop_last(), init);
        assert forall|j: int| 0 <= j < s.len() implies #[trigger] s[j] < next_after_ids(
            s,
            init,
        ) by {
            if j < s.len() - 1 {
                assert(s.drop_last()[j] == s[j]);
            }
        }
    }
}

/// Round trip: a context rebuilt from its own transfer form answers every
/// name and handle lookup exactly as the original, and its allocator sits
/// past every handle the original knew, so no handle is ever reissued.
pub proof fn lemma_transfer_round_trip(c: ContextModel)
    requires
        context_round_trips(c),
    ensures
        ({
            let rt = from_transfer_model(to_transfer_model(c));
            &&& rt.defined == c.defined
            &&& rt.named == c.named
            &&& rt.undefined == c.undefined
            &&& (forall|ns: Seq<NameModel>, q: Seq<NameModel>|
                #[trigger] resolution_of(rt, ns, q) == resolution_of(c, ns, q))
            &&& (forall|id: nat| #[trigger] resolution_of_id(rt, id) == resolution_of_id(c, id))
            &&& (forall|j: int| 0 <= j < c.named.len() ==> (#[trigger] c.named[j]).1 < rt.next_id)
            &&& (forall|j: int|
                0 <= j < c.defined.len() ==> (#[trigger] c.defined[j]).0 < rt.next_id)
            &&& (forall|j: int| 0 <= j < c.undefined.len() ==> #[trigger] c.undefined[j]
                < rt.next_id)
        }),
{
    let t = to_transfer_model(c);
    let rt = from_transfer_model(t);
    assert(rt.defined =~= c.defined) by {
        assert forall|j: int| 0 <= j < c.defined.len() implies #[trigger] rt.defined[j]
            == c.defined[j] by {
            assert(t.defined[j] == (c.defined[j].0, TransferTypeInfoModel {
                name: render_qualified(c.defined[j].1.name),
                def: c.defined[j].1.def,
            }));
            lemma_parse_render_round_trip(c.defined[j].1.name);
            assert(rt.defined[j].1 =~= c.defined[j].1);
            assert(c.defined[j] == (c.defined[j].0, c.defined[j].1));
        }
    }
    assert(rt.named =~= c.named) by {
        assert forall|j: int| 0 <= j < c.named.len() implies #[trigger] rt.named[j]
            == c.named[j] by {
            assert(t.named[j] == (render_qualified(c.named[j].0), c.named[j].1));
            lemma_parse_render_round_trip(c.named[j].0);
            assert(c.named[j] == (c.named[j].0, c.named[j].1));
        }
    }
    assert(rt.undefined == c.undefined);
    assert forall|ns: Seq<NameModel>, q: Seq<NameModel>| #[trigger] resolution_of(rt, ns, q)
        == resolution_of(c, ns, q) by {
        assert(resolution_of(rt, ns, q) =~= resolution_of(c, ns, q));
    }
    assert forall|id: nat| #[trigger] resolution_of_id(rt, id) == resolution_of_id(c, id) by {
    }
    lemma_next_after_defined_bound(t.defined, 0);
    let n1 = next_after_defined(t.defined, 0);
    lemma_next_after_named_bound(t.named, n1);
    let n2 = next_after_named(t.named, n1);
    lemma_next_after_ids_bound(t.undefined, n2);
    assert forall|j: int| 0 <= j < c.named.len() implies (#[trigger] c.named[j]).1
        < rt.next_id by {
        assert(t.named[j].1 == c.named[j].1);
    }
    assert forall|j: int| 0 <= j < c.defined.len() implies (#[trigger] c.defined[j]).0
        < rt.next_id by {
        assert(t.defined[j].0 == c.defined[j].0);
    }
}

} // verus!
