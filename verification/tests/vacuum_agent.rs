use mcts_connect_four::vacuum::{
    Agent, ReflexVacuumAgent, SquareState, VaccuumWorldLocalPercept, VacuumWorldAction,
    VacuumWorldLocation,
};

#[test]
fn test_reflex_vacuum_agent() {
    let mut agent = ReflexVacuumAgent::new();
    let percept = VaccuumWorldLocalPercept {
        location: VacuumWorldLocation { x: 0, y: 0 },
        square_state: SquareState::Dirty,
    };
    assert_eq!(agent.act(&percept), VacuumWorldAction::Suck);
    let percept = VaccuumWorldLocalPercept {
        location: VacuumWorldLocation { x: 1, y: 0 },
        square_state: SquareState::Dirty,
    };
    assert_eq!(agent.act(&percept), VacuumWorldAction::Suck);
    let percept = VaccuumWorldLocalPercept {
        location: VacuumWorldLocation { x: 0, y: 0 },
        square_state: SquareState::Clean,
    };
    assert_eq!(agent.act(&percept), VacuumWorldAction::Right);
    let percept = VaccuumWorldLocalPercept {
        location: VacuumWorldLocation { x: 1, y: 0 },
        square_state: SquareState::Clean,
    };
    assert_eq!(agent.act(&percept), VacuumWorldAction::Left);
}
