//! A small rule engine. Formulas written in infix text are read by the
//! lexer (`tokenizer`), put in postfix order and evaluated on a stack
//! (`executor`); operator trees written as JSON are evaluated directly
//! (`json_logic`); markdown decision tables (`logic_table`) test each input
//! cell of a row as a formula against a context value (`context`, `value`).
//! Numbers are exact rationals (`number`). An action planner (`configs`,
//! `finder`, `planner`) searches for a sequence of actions that reaches a
//! goal.
pub mod number;
pub mod text;
pub mod value;
pub mod operand;
pub mod tokenizer;
pub mod executor;
pub mod context;
pub mod logic_table;
pub mod json_logic;
pub mod configs;
pub mod finder;
pub mod planner;
