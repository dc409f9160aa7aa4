use bytes::Buf;
use engine::{ApiCall, GameState, ScriptRun};
use std::io::Cursor;

const OP_PLAY_SOUND: u8 = 0x07;

fn nothing() -> ScriptRun {
    ScriptRun { calls: Vec::new(), error: None }
}

fn play(name: &str, looped: bool, volume: f32) -> ApiCall {
    ApiCall::PlaySound {
        name: name.as_bytes().to_vec(),
        looped: Some(looped),
        volume: Some(volume.to_bits()),
    }
}

#[test]
fn test_audio_context_separation() {
    // update: play_sound("global_boom", false, 1.0) goes to every client
    let update = ScriptRun { calls: vec![play("global_boom", false, 1.0)], error: None };
    // draw: play_sound("local_pew", false, 0.5) goes to this client only
    let draw = ScriptRun { calls: vec![play("local_pew", false, 0.5)], error: None };

    let mut game = GameState::new(&nothing()).expect("Failed to init game");

    game.update(&update).expect("Update failed");
    let bytes = game.draw(&draw).expect("Draw failed");

    let mut cursor = Cursor::new(bytes);

    assert_eq!(cursor.get_u8(), OP_PLAY_SOUND, "Expected OP_PLAY_SOUND (Global)");

    let len1 = cursor.get_u16_le() as usize;
    let pos1 = cursor.position() as usize;
    let name1 = String::from_utf8(cursor.get_ref()[pos1..pos1 + len1].to_vec()).unwrap();
    cursor.advance(len1);
    assert_eq!(name1, "global_boom");

    let loop1 = cursor.get_u8();
    assert_eq!(loop1, 0);

    let vol1 = cursor.get_f32_le();
    assert_eq!(vol1, 1.0);

    assert_eq!(cursor.get_u8(), OP_PLAY_SOUND, "Expected OP_PLAY_SOUND (Local)");

    let len2 = cursor.get_u16_le() as usize;
    let pos2 = cursor.position() as usize;
    let name2 = String::from_utf8(cursor.get_ref()[pos2..pos2 + len2].to_vec()).unwrap();
    cursor.advance(len2);
    assert_eq!(name2, "local_pew");

    let loop2 = cursor.get_u8();
    assert_eq!(loop2, 0);

    let vol2 = cursor.get_f32_le();
    assert_eq!(vol2, 0.5);

    assert!(!cursor.has_remaining(), "Buffer should be empty");
}

#[test]
fn test_draw_clears_local_buffer() {
    let update = nothing();
    let draw = ScriptRun { calls: vec![play("local_only", false, 0.8)], error: None };

    let mut game = GameState::new(&nothing()).expect("Failed to init");

    // Frame 1
    game.update(&update).unwrap();
    let bytes1 = game.draw(&draw).unwrap();
    assert!(bytes1.len() > 0);

    // Frame 2
    game.begin_frame();
    game.update(&update).unwrap();

    let bytes2 = game.draw(&draw).unwrap();

    let mut cursor = Cursor::new(bytes2);
    let mut count = 0;
    while cursor.has_remaining() {
        if cursor.get_u8() == OP_PLAY_SOUND {
            count += 1;
            let len = cursor.get_u16_le() as usize;
            cursor.advance(len);
            cursor.advance(1);
            cursor.advance(4);
        }
    }
    assert_eq!(count, 1, "Should only have 1 sound per frame");
}
