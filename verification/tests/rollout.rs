use go_engine::{Move, PointState, Position19};
use rand::Rng;

fn rollout() -> (u32, i64) {
    let mut rng = rand::thread_rng();
    let mut game = Position19::new();
    let mut num_consecutive_passes = 0;
    let mut num_moves = 0;

    while num_consecutive_passes < 2 {
        let candidates = game.empties();
        let mut played = false;
        if candidates.len() > 0 {
            let start_index = rng.gen_range(0..candidates.len());
            let mut i = start_index;
            loop {
                let pt = candidates[i];
                if game.is_eye(pt) != PointState::Occupied(game.turn()) {
                    if let Ok(_) = game.play(Move::Linear(pt)) {
                        played = true;
                        break;
                    }
                }
                i += 1;
                if i >= candidates.len() {
                    i = 0;
                }
                if i == start_index {
                    break;
                }
            }
        }
        if played {
            num_consecutive_passes = 0;
        } else {
            let _ = game.play(Move::Pass);
            num_consecutive_passes += 1;
        }
        num_moves += 1;
        if num_moves > 1000 {
            println!("suspicious game with > 1000 moves");
            break;
        }
    }
    (num_moves, game.score())
}

#[test]
fn test_rollout() {
    assert!(rollout().0 < 1000);
}
