use app_states::game::{Game, Position};
use app_states::obstacle::Obstacle;
use app_states::player::Player;
use app_states::ui::Ui;

#[test]
fn position_default_is_origin() {
    let p = Position::default();
    assert_eq!(p.x, 0);
    assert_eq!(p.y, 0);
}

#[test]
fn player_default_stands_still_at_origin() {
    let p = Player::default();
    assert_eq!(p.position, Position::default());
    assert!(!p.is_moving);
}

#[test]
fn obstacle_default_sits_at_origin() {
    let o = Obstacle::default();
    assert_eq!(o.position, Position::default());
}

#[test]
fn game_new_holds_one_obstacle() {
    let g = Game::new();
    assert_eq!(g.obstacles.len(), 1);
    assert_eq!(g.obstacles[0].position, Position::default());
    assert!(!g.player.is_moving);
}

#[test]
fn ui_new_is_empty_handle() {
    assert_eq!(Ui::new(), Ui {});
}
