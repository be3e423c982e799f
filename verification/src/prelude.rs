//! The traits and types that a user of the library wants at hand.

pub use crate::de::{Deserialize, DeserializeError};
pub use crate::merkleization::generalized_index::{default_generalized_index, GeneralizedIndex};
pub use crate::merkleization::multiproofs;
pub use crate::merkleization::path::{Field, GeneralizedIndexable, PathElement, TypeShape};
pub use crate::merkleization::proofs::{self, Prove, Tree};
pub use crate::merkleization::{HashTreeRoot, MerkleizationError, Node};
pub use crate::ser::{Serialize, SerializeError};
pub use crate::{deserialize, serialize, Serializable, SimpleSerialize};
