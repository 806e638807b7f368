pub mod flow;
mod graph;
pub mod money;
pub mod obligation;
pub mod payment;
pub mod person;
pub mod reduction;
pub mod solver;

pub use money::Money;
pub use obligation::{Debt, Obligation, ObligationBuilder, Obligations, ObligationsBuilder};
pub use payment::{Payment, PaymentBuilder, Payments, PaymentsBuilder};
pub use person::Person;
pub use solver::{Solver, SolverError};
