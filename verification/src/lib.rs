//! A fine-grained reactive runtime (signals, effects, batching) together with
//! the decision logic of the surrounding framework: resiliency policies,
//! client-side routing, the development server and the component builders.

pub mod seqs;
pub mod runtime;
pub mod watch;
pub mod reactive;
pub mod context;
pub mod text;
pub mod resiliency;
pub mod router;
pub mod server;
pub mod view;
pub mod codegen;
pub mod components;
pub use components::Component;
