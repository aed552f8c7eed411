//! The parameters that each end announces.

use crate::bytes;
use crate::bytes::{push_u16, push_u32};
use crate::h2::error::ConnError;
use crate::h2::frame;
use crate::h2::frame::SettingId;
use vstd::prelude::*;

verus! {

#[derive(Copy, Clone, Debug, PartialEq, Eq, Structural)]
pub struct Settings {
    pub header_table_size: u32,
    pub enable_push: bool,
    pub max_concurrent_streams: Option<u32>,
    pub initial_window_size: u32,
    pub max_frame_size: u32,
    pub max_header_list_size: Option<u32>,
}

pub const MIN_MAX_FRAME_SIZE: u32 = 16_384;

pub const MAX_MAX_FRAME_SIZE: u32 = 16_777_215;

/// What holds before anything is announced.
pub open spec fn default_settings() -> Settings {
    Settings {
        header_table_size: 4096,
        enable_push: true,
        max_concurrent_streams: None,
        initial_window_size: 65_535,
        max_frame_size: 16_384,
        max_header_list_size: None,
    }
}

/// The settings with one parameter changed.
pub open spec fn applied(s: Settings, id: SettingId, value: u32) -> Result<Settings, ConnError> {
    match id {
        SettingId::HeaderTableSize => Ok(Settings { header_table_size: value, ..s }),
        SettingId::EnablePush => if value > 1 {
            Err(ConnError::BadSettings)
        } else {
            Ok(Settings { enable_push: value == 1, ..s })
        },
        SettingId::MaxConcurrentStreams => Ok(
            Settings { max_concurrent_streams: Some(value), ..s },
        ),
        SettingId::InitialWindowSize => if value > 0x7fff_ffff {
            Err(ConnError::FlowControl)
        } else {
            Ok(Settings { initial_window_size: value, ..s })
        },
        SettingId::MaxFrameSize => if MIN_MAX_FRAME_SIZE <= value <= MAX_MAX_FRAME_SIZE {
            Ok(Settings { max_frame_size: value, ..s })
        } else {
            Err(ConnError::BadSettings)
        },
        SettingId::MaxHeaderListSize => Ok(Settings { max_header_list_size: Some(value), ..s }),
    }
}

/// One parameter of a frame; an unknown one changes nothing.
pub open spec fn applied_any(s: Settings, param: (Option<SettingId>, u32)) -> Result<
    Settings,
    ConnError,
> {
    match param.0 {
        Some(id) => applied(s, id, param.1),
        None => Ok(s),
    }
}

/// All parameters of a frame in order, up to the first that is refused.
pub open spec fn applied_all(s: Settings, params: Seq<(Option<SettingId>, u32)>) -> Result<
    Settings,
    ConnError,
>
    decreases params.len(),
{
    if params.len() == 0 {
        Ok(s)
    } else {
        match applied_any(s, params[0]) {
            Ok(next) => applied_all(next, params.drop_first()),
            Err(error) => Err(error),
        }
    }
}

/// One parameter on the wire.
pub open spec fn param_wire(id: SettingId, value: u32) -> Seq<u8> {
    bytes::wire16(frame::setting_number(id)) + bytes::wire32(value)
}

/// An optional parameter on the wire.
pub open spec fn optional_wire(id: SettingId, value: Option<u32>) -> Seq<u8> {
    match value {
        Some(v) => param_wire(id, v),
        None => Seq::empty(),
    }
}

/// All parameters on the wire.
pub open spec fn settings_wire(s: Settings) -> Seq<u8> {
    param_wire(SettingId::HeaderTableSize, s.header_table_size) + param_wire(
        SettingId::EnablePush,
        if s.enable_push {
            1
        } else {
            0
        },
    ) + optional_wire(SettingId::MaxConcurrentStreams, s.max_concurrent_streams) + param_wire(
        SettingId::InitialWindowSize,
        s.initial_window_size,
    ) + param_wire(SettingId::MaxFrameSize, s.max_frame_size) + optional_wire(
        SettingId::MaxHeaderListSize,
        s.max_header_list_size,
    )
}

/// Whether the settings could be announced by a peer.
pub open spec fn settings_valid(s: Settings) -> bool {
    s.initial_window_size <= 0x7fff_ffff && MIN_MAX_FRAME_SIZE <= s.max_frame_size
        <= MAX_MAX_FRAME_SIZE
}

impl Settings {
    /// What holds before anything is announced.
    pub fn defaults() -> (r: Self)
        ensures
            r == default_settings(),
    {
        Settings {
            header_table_size: 4096,
            enable_push: true,
            max_concurrent_streams: None,
            initial_window_size: 65_535,
            max_frame_size: 16_384,
            max_header_list_size: None,
        }
    }

    /// Changes one parameter. A refused value changes nothing.
    pub fn apply(&mut self, id: SettingId, value: u32) -> (r: Result<(), ConnError>)
        ensures
            match r {
                Ok(_) => applied(*old(self), id, value) == Ok::<Settings, ConnError>(*final(self)),
                Err(error) => applied(*old(self), id, value) == Err::<Settings, ConnError>(error)
                    && *final(self) == *old(self),
            },
    {
        match id {
            SettingId::HeaderTableSize => {
                self.header_table_size = value;
            },
            SettingId::EnablePush => match value {
                0 => {
                    self.enable_push = false;
                },
                1 => {
                    self.enable_push = true;
                },
                _ => return Err(ConnError::BadSettings),
            },
            SettingId::MaxConcurrentStreams => {
                self.max_concurrent_streams = Some(value);
            },
            SettingId::InitialWindowSize => {
                if value > 0x7fff_ffff {
                    return Err(ConnError::FlowControl);
                }
                self.initial_window_size = value;
            },
            SettingId::MaxFrameSize => {
                if value < MIN_MAX_FRAME_SIZE || value > MAX_MAX_FRAME_SIZE {
                    return Err(ConnError::BadSettings);
                }
                self.max_frame_size = value;
            },
            SettingId::MaxHeaderListSize => {
                self.max_header_list_size = Some(value);
            },
        }
        Ok(())
    }

    fn push_param(out: &mut Vec<u8>, id: SettingId, value: u32)
        ensures
            final(out)@ == old(out)@ + param_wire(id, value),
    {
        let ghost before = out@;
        push_u16(out, id.as_u16());
        push_u32(out, value);
        assert(out@ =~= before + param_wire(id, value));
    }

    /// Appends all parameters.
    pub fn encode(&self, out: &mut Vec<u8>)
        ensures
            final(out)@ == old(out)@ + settings_wire(*self),
    {
        let ghost before = out@;
        Self::push_param(out, SettingId::HeaderTableSize, self.header_table_size);
        Self::push_param(
            out,
            SettingId::EnablePush,
            if self.enable_push {
                1
            } else {
                0
            },
        );
        if let Some(limit) = self.max_concurrent_streams {
            Self::push_param(out, SettingId::MaxConcurrentStreams, limit);
        }
        Self::push_param(out, SettingId::InitialWindowSize, self.initial_window_size);
        Self::push_param(out, SettingId::MaxFrameSize, self.max_frame_size);
        if let Some(limit) = self.max_header_list_size {
            Self::push_param(out, SettingId::MaxHeaderListSize, limit);
        }
        assert(out@ =~= before + settings_wire(*self));
    }

    /// The number of parameters that are announced.
    pub fn param_count(&self) -> (r: usize)
        ensures
            r * 6 == settings_wire(*self).len(),
            4 <= r <= 6,
    {
        let mut count: usize = 4;
        if self.max_concurrent_streams.is_some() {
            count = count + 1;
        }
        if self.max_header_list_size.is_some() {
            count = count + 1;
        }
        count
    }
}

impl Default for Settings {
    fn default() -> (r: Self)
        ensures
            r == default_settings(),
    {
        Settings::defaults()
    }
}

proof fn lemma_param(id: SettingId, value: u32, rest: Seq<u8>)
    ensures
        frame::settings_in(param_wire(id, value) + rest) == seq![(Some(id), value)]
            + frame::settings_in(rest),
{
    let s = param_wire(id, value) + rest;
    assert(s.subrange(0, 2) =~= bytes::wire16(frame::setting_number(id)));
    assert(s.subrange(2, 6) =~= bytes::wire32(value));
    bytes::lemma_wire16(frame::setting_number(id), s, 0);
    bytes::lemma_wire32(value, s, 2);
    assert(s.subrange(6, s.len() as int) =~= rest);
}

proof fn lemma_apply_first(
    s: Settings,
    id: SettingId,
    value: u32,
    rest: Seq<(Option<SettingId>, u32)>,
)
    ensures
        applied_all(s, seq![(Some(id), value)] + rest) == (match applied(s, id, value) {
            Ok(next) => applied_all(next, rest),
            Err(error) => Err(error),
        }),
{
    let all = seq![(Some(id), value)] + rest;
    assert(all.drop_first() =~= rest);
}

/// A peer that reads the announced parameters comes to the same settings.
pub proof fn law_settings_round_trip(s: Settings)
    requires
        settings_valid(s),
    ensures
        applied_all(default_settings(), frame::settings_in(settings_wire(s))) == Ok::<
            Settings,
            ConnError,
        >(s),
{
    let push: u32 = if s.enable_push {
        1
    } else {
        0
    };
    let r6 = optional_wire(SettingId::MaxHeaderListSize, s.max_header_list_size);
    let r5 = param_wire(SettingId::MaxFrameSize, s.max_frame_size) + r6;
    let r4 = param_wire(SettingId::InitialWindowSize, s.initial_window_size) + r5;
    let r3 = optional_wire(SettingId::MaxConcurrentStreams, s.max_concurrent_streams) + r4;
    let r2 = param_wire(SettingId::EnablePush, push) + r3;
    let r1 = param_wire(SettingId::HeaderTableSize, s.header_table_size) + r2;
    assert(settings_wire(s) =~= r1);
    let none = Seq::<(Option<SettingId>, u32)>::empty();
    assert(frame::settings_in(Seq::empty()) == none);
    let s0 = default_settings();
    lemma_param(SettingId::HeaderTableSize, s.header_table_size, r2);
    lemma_apply_first(s0, SettingId::HeaderTableSize, s.header_table_size, frame::settings_in(r2));
    let s1 = Settings { header_table_size: s.header_table_size, ..s0 };
    lemma_param(SettingId::EnablePush, push, r3);
    lemma_apply_first(s1, SettingId::EnablePush, push, frame::settings_in(r3));
    let s2 = Settings { enable_push: s.enable_push, ..s1 };
    let s3 = Settings { max_concurrent_streams: s.max_concurrent_streams, ..s2 };
    if let Some(v) = s.max_concurrent_streams {
        lemma_param(SettingId::MaxConcurrentStreams, v, r4);
        lemma_apply_first(s2, SettingId::MaxConcurrentStreams, v, frame::settings_in(r4));
    } else {
        assert(r3 =~= r4);
    }
    lemma_param(SettingId::InitialWindowSize, s.initial_window_size, r5);
    lemma_apply_first(
        s3,
        SettingId::InitialWindowSize,
        s.initial_window_size,
        frame::settings_in(r5),
    );
    let s4 = Settings { initial_window_size: s.initial_window_size, ..s3 };
    lemma_param(SettingId::MaxFrameSize, s.max_frame_size, r6);
    lemma_apply_first(s4, SettingId::MaxFrameSize, s.max_frame_size, frame::settings_in(r6));
    let s5 = Settings { max_frame_size: s.max_frame_size, ..s4 };
    if let Some(v) = s.max_header_list_size {
        assert(r6 =~= param_wire(SettingId::MaxHeaderListSize, v) + Seq::<u8>::empty());
        lemma_param(SettingId::MaxHeaderListSize, v, Seq::empty());
        lemma_apply_first(s5, SettingId::MaxHeaderListSize, v, none);
        assert(applied_all(s, none) == Ok::<Settings, ConnError>(s));
    } else {
        assert(r6 =~= Seq::<u8>::empty());
        assert(applied_all(s5, none) == Ok::<Settings, ConnError>(s5));
    }
}

} // verus!
