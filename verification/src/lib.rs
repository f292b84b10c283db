//! A percent-encoding (URL-encoding) codec.
//!
//! Arbitrary byte sequences are turned into ASCII-safe text and back. Which
//! bytes pass through unescaped is configurable through [`Bitmask`], a compact
//! bitmask over the printable ASCII range; [`encode`] maps the space byte to
//! `+` and every other unsafe byte to a `%XX` escape triplet, and [`decode`]
//! reverses both transforms, passing malformed escapes through literally
//! instead of failing.

mod codec;
mod mask;

pub use codec::decode;
pub use codec::encode;
pub use mask::Bitmask;
