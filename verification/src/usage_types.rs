//! usage's spec types, as they cross into the library: opaque.

use vstd::prelude::*;
use usage::SpecArg as UsageArg;
use usage::SpecCommand as UsageCommand;
use usage::SpecFlag as UsageFlag;

verus! {

#[verifier::external_type_specification]
#[verifier::external_body]
pub struct ExUsageArg(UsageArg);

#[verifier::external_type_specification]
#[verifier::external_body]
pub struct ExUsageFlag(UsageFlag);

#[verifier::external_type_specification]
#[verifier::external_body]
pub struct ExUsageCommand(UsageCommand);

} // verus!
