use vstd::prelude::*;

use crate::binary::{string_bytes, var_bytes, write_bytes, write_var_u32};
use crate::error::{Error, ErrorKind};
use crate::packets::utf8;

verus! {

/// Where a command came from.
#[derive(Debug, Copy, Clone, PartialEq, Eq, Structural)]
pub enum CommandOriginType {
    Player,
    Block,
    MinecartBlock,
    DevConsole,
    Test,
    AutomationPlayer,
    ClientAutomation,
    DedicatedServer,
    Entity,
    Virtual,
    GameArgument,
    EntityServer,
}

impl CommandOriginType {
    pub open spec fn spec_code(self) -> u32 {
        match self {
            CommandOriginType::Player => 0,
            CommandOriginType::Block => 1,
            CommandOriginType::MinecartBlock => 2,
            CommandOriginType::DevConsole => 3,
            CommandOriginType::Test => 4,
            CommandOriginType::AutomationPlayer => 5,
            CommandOriginType::ClientAutomation => 6,
            CommandOriginType::DedicatedServer => 7,
            CommandOriginType::Entity => 8,
            CommandOriginType::Virtual => 9,
            CommandOriginType::GameArgument => 10,
            CommandOriginType::EntityServer => 11,
        }
    }

    /// Wire value of the origin.
    pub fn code(&self) -> (r: u32)
        ensures
            r == self.spec_code(),
    {
        match self {
            CommandOriginType::Player => 0,
            CommandOriginType::Block => 1,
            CommandOriginType::MinecartBlock => 2,
            CommandOriginType::DevConsole => 3,
            CommandOriginType::Test => 4,
            CommandOriginType::AutomationPlayer => 5,
            CommandOriginType::ClientAutomation => 6,
            CommandOriginType::DedicatedServer => 7,
            CommandOriginType::Entity => 8,
            CommandOriginType::Virtual => 9,
            CommandOriginType::GameArgument => 10,
            CommandOriginType::EntityServer => 11,
        }
    }
}

/// How much output a command reports.
#[derive(Debug, Copy, Clone, PartialEq, Eq, Structural)]
pub enum CommandOutputType {
    NoOutput,
    LastOutput,
    Silent,
    AllOutput,
    DataSet,
}

impl CommandOutputType {
    pub open spec fn spec_code(self) -> u8 {
        match self {
            CommandOutputType::NoOutput => 0,
            CommandOutputType::LastOutput => 1,
            CommandOutputType::Silent => 2,
            CommandOutputType::AllOutput => 3,
            CommandOutputType::DataSet => 4,
        }
    }

    /// Wire value of the output type.
    pub fn code(&self) -> (r: u8)
        ensures
            r == self.spec_code(),
    {
        match self {
            CommandOutputType::NoOutput => 0,
            CommandOutputType::LastOutput => 1,
            CommandOutputType::Silent => 2,
            CommandOutputType::AllOutput => 3,
            CommandOutputType::DataSet => 4,
        }
    }
}

/// One line of command output.
#[derive(Debug)]
pub struct CommandOutputMessage {
    pub is_success: bool,
    pub message: String,
    pub parameters: Vec<String>,
}

/// Result of a command, sent back to its origin.
#[derive(Debug)]
pub struct CommandOutput {
    pub origin: CommandOriginType,
    pub request_id: String,
    pub output_type: CommandOutputType,
    pub success_count: u32,
    pub output: Vec<CommandOutputMessage>,
}

/// Identifier of the command-output packet.
pub const COMMAND_OUTPUT_ID: u32 = 0x4f;

/// Strings one after the other, each length-prefixed.
pub open spec fn strings_bytes(ps: Seq<String>) -> Seq<u8>
    decreases ps.len(),
{
    if ps.len() == 0 {
        Seq::empty()
    } else {
        strings_bytes(ps.drop_last()) + string_bytes(utf8(ps.last()@))
    }
}

/// Encoding of one output line: success flag, message, then the parameter
/// count and the parameters.
pub open spec fn message_bytes(m: CommandOutputMessage) -> Seq<u8> {
    seq![if m.is_success { 1u8 } else { 0u8 }] + string_bytes(utf8(m.message@)) + var_bytes(
        m.parameters@.len(),
    ) + strings_bytes(m.parameters@)
}

/// Output lines one after the other.
pub open spec fn messages_bytes(ms: Seq<CommandOutputMessage>) -> Seq<u8>
    decreases ms.len(),
{
    if ms.len() == 0 {
        Seq::empty()
    } else {
        messages_bytes(ms.drop_last()) + message_bytes(ms.last())
    }
}

/// Every string and list fits its 32-bit length prefix.
pub open spec fn message_fits(m: CommandOutputMessage) -> bool {
    &&& utf8(m.message@).len() <= u32::MAX
    &&& m.parameters@.len() <= u32::MAX
    &&& forall|i: int| 0 <= i < m.parameters@.len() ==> utf8((#[trigger] m.parameters@[i])@).len() <= u32::MAX
}

/// Encoding of a command output: origin, a nil request UUID, the request
/// identifier, a zero varint for test and developer-console origins, the
/// output type, the success count, then the output lines.
pub open spec fn command_output_bytes(c: CommandOutput) -> Seq<u8> {
    var_bytes(c.origin.spec_code() as nat) + Seq::new(16, |i: int| 0u8) + string_bytes(
        utf8(c.request_id@),
    ) + (if c.origin == CommandOriginType::Test || c.origin == CommandOriginType::DevConsole {
        seq![0u8]
    } else {
        Seq::empty()
    }) + seq![c.output_type.spec_code()] + var_bytes(c.success_count as nat) + var_bytes(
        c.output@.len(),
    ) + messages_bytes(c.output@)
}

fn write_strings(buf: &mut Vec<u8>, ps: &Vec<String>)
    requires
        forall|i: int| 0 <= i < ps@.len() ==> utf8((#[trigger] ps@[i])@).len() <= u32::MAX,
    ensures
        final(buf)@ == old(buf)@ + strings_bytes(ps@),
{
    let mut i: usize = 0;
    while i < ps.len()
        invariant
            i <= ps@.len(),
            forall|i: int| 0 <= i < ps@.len() ==> utf8((#[trigger] ps@[i])@).len() <= u32::MAX,
            buf@ == old(buf)@ + strings_bytes(ps@.take(i as int)),
        decreases ps@.len() - i,
    {
        proof {
            assert(ps@.take(i + 1).drop_last() =~= ps@.take(i as int));
        }
        write_bytes(buf, ps[i].as_str().as_bytes());
        i = i + 1;
        assert(buf@ =~= old(buf)@ + strings_bytes(ps@.take(i as int)));
    }
    assert(ps@.take(i as int) =~= ps@);
}

impl CommandOutput {
    /// Every string and list fits its 32-bit length prefix.
    pub open spec fn spec_fits(&self) -> bool {
        &&& utf8(self.request_id@).len() <= u32::MAX
        &&& self.output@.len() <= u32::MAX
        &&& forall|i: int| 0 <= i < self.output@.len() ==> message_fits(#[trigger] self.output@[i])
    }

    /// Encodes the packet body. Output of type `DataSet` has no encoding and
    /// fails with `Unsupported`.
    pub fn encode(&self) -> (r: Result<Vec<u8>, Error>)
        requires
            self.spec_fits(),
        ensures
            self.output_type == CommandOutputType::DataSet ==> (r matches Err(e) && e.spec_kind()
                == ErrorKind::Unsupported),
            self.output_type != CommandOutputType::DataSet ==> (r matches Ok(b) && b@
                == command_output_bytes(*self)),
    {
        if self.output_type == CommandOutputType::DataSet {
            return Err(Error::new(ErrorKind::Unsupported, "data set output".to_owned()));
        }
        let mut buf: Vec<u8> = Vec::new();
        write_var_u32(&mut buf, self.origin.code());
        let mut k: usize = 0;
        while k < 16
            invariant
                k <= 16,
                buf@ == var_bytes(self.origin.spec_code() as nat) + Seq::new(k as nat, |i: int| 0u8),
            decreases 16 - k,
        {
            buf.push(0);
            k = k + 1;
            assert(buf@ =~= var_bytes(self.origin.spec_code() as nat) + Seq::new(k as nat, |i: int| 0u8));
        }
        write_bytes(&mut buf, self.request_id.as_str().as_bytes());
        match self.origin {
            CommandOriginType::Test | CommandOriginType::DevConsole => {
                buf.push(0);
            },
            _ => {},
        }
        buf.push(self.output_type.code());
        write_var_u32(&mut buf, self.success_count);
        write_var_u32(&mut buf, self.output.len() as u32);
        let ghost mid = buf@;
        let mut i: usize = 0;
        while i < self.output.len()
            invariant
                self.spec_fits(),
                i <= self.output@.len(),
                buf@ == mid + messages_bytes(self.output@.take(i as int)),
            decreases self.output@.len() - i,
        {
            proof {
                assert(self.output@.take(i + 1).drop_last() =~= self.output@.take(i as int));
            }
            let m = &self.output[i];
            assert(message_fits(*m));
            let ghost before = buf@;
            buf.push(if m.is_success { 1u8 } else { 0u8 });
            write_bytes(&mut buf, m.message.as_str().as_bytes());
            write_var_u32(&mut buf, m.parameters.len() as u32);
            write_strings(&mut buf, &m.parameters);
            i = i + 1;
            assert(buf@ =~= before + message_bytes(*m));
            assert(buf@ =~= mid + messages_bytes(self.output@.take(i as int)));
        }
        assert(self.output@.take(i as int) =~= self.output@);
        assert(buf@ =~= command_output_bytes(*self));
        Ok(buf)
    }
}

} // verus!
