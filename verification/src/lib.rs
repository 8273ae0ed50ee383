//! Resolution core for a namespaced schema language: the identifier model
//! (case-rendered names and dot-joined qualified names), a monotonic handle
//! allocator, the cross-file resolution context that turns name-based type
//! references into stable numeric handles, and a key-constrained transfer
//! form of the resolved table for handing to external generators.

mod names;
mod nodes;
mod idgen;
mod context;
mod laws;
mod transfer;

pub use context::Context;
pub use context::ContextModel;
pub use context::NameResolution;
pub use context::ResolutionModel;
pub use context::TypeInfo;
pub use context::TypeInfoModel;
pub use context::construct_model;
pub use context::defined_find;
pub use context::named_find;
pub use context::qualify;
pub use context::resolution_of;
pub use context::resolution_of_id;
pub use idgen::TypeIdGenerator;
pub use laws::context_wf;
pub use laws::lemma_construct_wf;
pub use laws::lemma_declared_name_resolves;
pub use laws::lemma_definition_clears_undefined;
pub use laws::lemma_reference_id_stable;
pub use laws::lemma_resolution_idempotent;
pub use laws::lemma_self_reference_in_list_resolves;
pub use laws::lemma_self_reference_resolves;
pub use laws::lemma_undefined_ids_exact;
pub use laws::named_has_id;
pub use names::Name;
pub use names::NameCase;
pub use names::NameModel;
pub use names::QualifiedName;
pub use names::render_name;
pub use names::render_qualified;
pub use nodes::Enum;
pub use nodes::Field;
pub use nodes::File;
pub use nodes::Primitive;
pub use nodes::Root;
pub use nodes::Struct;
pub use nodes::Type;
pub use nodes::TypeDef;
pub use nodes::TypeId;
pub use nodes::TypeRef;
pub use nodes::TypeRefById;
pub use nodes::TypeRefByName;
pub use transfer::SerializableContext;
pub use transfer::TransferTypeInfo;
pub use transfer::lemma_parse_render_round_trip;
pub use transfer::lemma_transfer_round_trip;
pub use transfer::parse_dotted;
pub use transfer::to_transfer_model;
pub use transfer::from_transfer_model;
