//! Abstract syntax tree for the hardware-description language: components
//! with port definitions and structure, and the control program built from
//! sequence, parallel, conditional, and loop constructs that the interpreter
//! walks while driving a scope stack.

use vstd::prelude::*;

verus! {

/// A program identifier.
pub type Id = String;

/// A whole program: a named collection of components.
#[derive(Debug)]
pub struct Namespace {
    pub name: Id,
    pub components: Vec<Component>,
}

/// One hardware component: its ports, structure, and control program.
#[derive(Debug)]
pub struct Component {
    pub name: Id,
    pub inputs: Vec<Portdef>,
    pub outputs: Vec<Portdef>,
    pub structure: Vec<Structure>,
    pub control: Control,
}

/// A port definition: a named port of a given bit width.
#[derive(Debug)]
pub struct Portdef {
    pub name: Id,
    pub width: i64,
}

/// One structure statement: a subcomponent declaration, a primitive
/// instantiation, or a wire between two ports.
#[derive(Debug)]
pub enum Structure {
    Decl { name: String, component: String },
    Std { name: String, instance: Compinst },
    Wire { src: Port, dest: Port },
}

/// A reference to a port, either of a subcomponent or of the enclosing
/// component itself.
#[derive(Debug, Clone)]
pub enum Port {
    Comp { component: Id, port: String },
    This { port: String },
}

/// A primitive instantiation: the primitive's name and its parameters.
#[derive(Debug)]
pub struct Compinst {
    pub name: Id,
    pub params: Vec<i64>,
}

/// Sub-programs run one after another against the same scope stack.
#[derive(Debug)]
pub struct Sequence {
    pub stmts: Vec<Control>,
}

/// Sub-programs run as isolated parallel branches, forked from and merged
/// back into one scope stack.
#[derive(Debug)]
pub struct Par {
    pub stmts: Vec<Control>,
}

/// A two-way conditional on a port's value.
#[derive(Debug)]
pub struct If {
    pub cond: Port,
    pub tbranch: Box<Control>,
    pub fbranch: Box<Control>,
}

/// A conditional that also disables the untaken branch's components.
#[derive(Debug)]
pub struct Ifen {
    pub cond: Port,
    pub tbranch: Box<Control>,
    pub fbranch: Box<Control>,
}

/// A loop re-running its body while a port holds.
#[derive(Debug)]
pub struct While {
    pub cond: Port,
    pub body: Box<Control>,
}

/// Prints a variable while simulating.
#[derive(Debug, Clone)]
pub struct Print {
    pub var: String,
}

/// Activates the named components.
#[derive(Debug, Clone)]
pub struct Enable {
    pub comps: Vec<String>,
}

/// Deactivates the named components.
#[derive(Debug, Clone)]
pub struct Disable {
    pub comps: Vec<String>,
}

/// The empty control program.
#[derive(Debug, Clone)]
pub struct Empty {}

/// A control program node.  Recursive constructs hold their children boxed.
#[derive(Debug)]
pub enum Control {
    Sequence { data: Sequence },
    Par { data: Par },
    If { data: If },
    Ifen { data: Ifen },
    While { data: While },
    Print { data: Print },
    Enable { data: Enable },
    Disable { data: Disable },
    Empty { data: Empty },
}

} // verus!
