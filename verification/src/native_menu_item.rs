//! The class `flash.display.NativeMenuItem` of the script language: its
//! description and its two initializers.

use vstd::prelude::*;
use crate::tree::ScriptObject;

verus! {

/// A value of the script language, as far as the initializers deal in values.
#[derive(Clone, Copy, PartialEq, Eq, Structural, Debug)]
pub enum Value {
    Undefined,
    Bool(bool),
    Object(ScriptObject),
}

/// An error raised while script code runs.
#[derive(Clone, Copy, PartialEq, Eq, Structural, Debug)]
pub struct ScriptError {
    pub code: u32,
}

/// A name in a package.
pub struct QName {
    pub package: &'static str,
    pub name: &'static str,
}

/// A slot that every instance of a class has.
pub struct SlotTrait {
    pub name: &'static str,
    pub namespace: &'static str,
    pub slot_type: &'static str,
}

/// The description of a class.
pub struct Class {
    pub name: QName,
    pub super_class: Option<QName>,
    pub instance_initializer: &'static str,
    pub class_initializer: &'static str,
    pub sealed: bool,
    pub instance_slots: Vec<SlotTrait>,
}

/// What the instance initializer returns once the initializer of the
/// superclass has ended with `outcome`: its error, or else the undefined
/// value.
pub open spec fn after_super_init(outcome: Result<(), ScriptError>) -> Result<Value, ScriptError> {
    match outcome {
        Ok(_) => Ok(Value::Undefined),
        Err(e) => Err(e),
    }
}

/// Initializes an instance. If there is an instance, the initializer of the
/// superclass runs on it, without arguments, and its error, if it raises one,
/// is the result; in every other case the result is the undefined value. The
/// arguments are not used.
pub fn instance_init<F: FnOnce(ScriptObject) -> Result<(), ScriptError>>(
    super_init: F,
    this: Option<ScriptObject>,
    args: &[Value],
) -> (r: Result<Value, ScriptError>)
    requires
        this matches Some(instance) ==> super_init.requires((instance,)),
    ensures
        match this {
            Some(instance) => exists|outcome: Result<(), ScriptError>|
                super_init.ensures((instance,), outcome) && r == after_super_init(outcome),
            None => r == Ok::<Value, ScriptError>(Value::Undefined),
        },
{
    if let Some(instance) = this {
        let outcome = super_init(instance);
        match outcome {
            Ok(_) => {
                assert(after_super_init(outcome) == Ok::<Value, ScriptError>(Value::Undefined));
            },
            Err(e) => {
                assert(after_super_init(outcome) == Err::<Value, ScriptError>(e));
                return Err(e);
            },
        }
    }
    Ok(Value::Undefined)
}

/// Initializes the class: there is nothing to do, and the result is the
/// undefined value.
pub fn class_init(this: Option<ScriptObject>, args: &[Value]) -> (r: Result<Value, ScriptError>)
    ensures
        r == Ok::<Value, ScriptError>(Value::Undefined),
{
    Ok(Value::Undefined)
}

/// Describes the class: `NativeMenuItem` in the package `flash.display`, a
/// sealed subclass of `flash.events.EventDispatcher` whose instances have one
/// public slot, `enabled`, of type `Boolean`.
pub fn create_class() -> (class: Class)
    ensures
        class.name.package@ == "flash.display"@,
        class.name.name@ == "NativeMenuItem"@,
        class.super_class matches Some(parent) && parent.package@ == "flash.events"@
            && parent.name@ == "EventDispatcher"@,
        class.instance_initializer@ == "<NativeMenuItem instance initializer>"@,
        class.class_initializer@ == "<NativeMenuItem class initializer>"@,
        class.sealed,
        class.instance_slots@.len() == 1,
        class.instance_slots@[0].name@ == "enabled"@,
        class.instance_slots@[0].namespace@ == ""@,
        class.instance_slots@[0].slot_type@ == "Boolean"@,
{
    let mut instance_slots: Vec<SlotTrait> = Vec::new();
    instance_slots.push(SlotTrait { name: "enabled", namespace: "", slot_type: "Boolean" });
    Class {
        name: QName { package: "flash.display", name: "NativeMenuItem" },
        super_class: Some(QName { package: "flash.events", name: "EventDispatcher" }),
        instance_initializer: "<NativeMenuItem instance initializer>",
        class_initializer: "<NativeMenuItem class initializer>",
        sealed: true,
        instance_slots,
    }
}

} // verus!
